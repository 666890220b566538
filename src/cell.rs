use vstd::prelude::*;

verus! {

/// What stands on one grid position.
#[derive(Clone, Copy, Debug, PartialEq, Eq, Hash, Structural)]
pub enum TreeType {
    Empty,
    Tree,
    Fire,
}

/// A grid coordinate: `x` is the column, `y` the row.
#[derive(Clone, Copy, Debug, PartialEq, Eq, Hash, Structural)]
pub struct Pos {
    pub x: usize,
    pub y: usize,
}

/// The dimensions a drawing surface reports.
pub struct Size {
    pub width: u16,
    pub height: u16,
}

/// Denominator of `SimConfig::take_fire_ppm`.
pub const PPM_SCALE: u32 = 1_000_000;

/// The tunable rules of the automaton.
#[derive(Clone, Copy, Debug, PartialEq, Eq, Structural)]
pub struct SimConfig {
    /// Ticks between two random spawns of a new tree.
    pub grow_interval: u8,
    /// Least value a tree's growth timer is set to.
    pub increase_min: i8,
    /// Greatest value a tree's growth timer is set to.
    pub increase_max: i8,
    /// Ticks a fire burns before it dies out; a fire whose timer still equals
    /// this value ignites the trees next to it.
    pub fire_exist_time: i8,
    /// Chance, in parts per million, that one tree catches fire on its own
    /// during a tick.
    pub take_fire_ppm: u32,
}

/// Ticks between two random spawns under the standard rules.
pub const TREE_GROW_INTERVAL: u8 = 25;
/// Least growth countdown under the standard rules.
pub const TREE_INCREASE_INTERVAL_MIN: i8 = 15;
/// Greatest growth countdown under the standard rules.
pub const TREE_INCREASE_INTERVAL_MAX: i8 = 50;
/// Burning time under the standard rules.
pub const FIRE_EXIST_TIME: i8 = 1;
/// Chance of a spontaneous fire per tick under the standard rules: 1%.
pub const TAKE_FIRE_PPM: u32 = 10_000;

/// The standard rules.
pub open spec fn standard_rules() -> SimConfig {
    SimConfig {
        grow_interval: TREE_GROW_INTERVAL,
        increase_min: TREE_INCREASE_INTERVAL_MIN,
        increase_max: TREE_INCREASE_INTERVAL_MAX,
        fire_exist_time: FIRE_EXIST_TIME,
        take_fire_ppm: TAKE_FIRE_PPM,
    }
}

impl SimConfig {
    /// The standard rules.
    pub fn standard() -> (c: SimConfig)
        ensures
            c.valid(),
            c == standard_rules(),
    {
        SimConfig {
            grow_interval: TREE_GROW_INTERVAL,
            increase_min: TREE_INCREASE_INTERVAL_MIN,
            increase_max: TREE_INCREASE_INTERVAL_MAX,
            fire_exist_time: FIRE_EXIST_TIME,
            take_fire_ppm: TAKE_FIRE_PPM,
        }
    }

    /// Rules are usable when every countdown is positive, the growth range
    /// is not empty and the fire chance is at most certainty.
    pub open spec fn valid(&self) -> bool {
        &&& 1 <= self.grow_interval
        &&& 1 <= self.increase_min <= self.increase_max
        &&& 1 <= self.fire_exist_time
        &&& self.take_fire_ppm <= PPM_SCALE
    }
}

/// Whether `(ay, ax)` and `(by, bx)` share an edge. Coordinates are plain
/// integers, so nothing wraps around a border.
pub open spec fn adjacent(ay: int, ax: int, by: int, bx: int) -> bool {
    ||| (ay == by && (ax == bx + 1 || bx == ax + 1))
    ||| (ax == bx && (ay == by + 1 || by == ay + 1))
}

} // verus!

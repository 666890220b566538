use crate::cell::{adjacent, Pos, SimConfig, TreeType, PPM_SCALE};
use vstd::prelude::*;

verus! {

/// The mathematical state of the automaton: what stands on each position,
/// each position's timer, and the countdown to the next random spawn.
pub struct Forest {
    pub cells: Seq<Seq<TreeType>>,
    pub timers: Seq<Seq<i8>>,
    pub clock: u8,
}

/// What a timer may hold while its cell is in state `t`: the sentinel `-1`
/// on empty ground, a pending growth countdown on a tree, the remaining
/// burning time on a fire.
pub open spec fn timer_fits(t: TreeType, timer: i8, cfg: SimConfig) -> bool {
    match t {
        TreeType::Empty => timer == -1,
        TreeType::Tree => 1 <= timer <= cfg.increase_max,
        TreeType::Fire => 0 <= timer <= cfg.fire_exist_time,
    }
}

/// The timer a cell receives when it enters state `t`; `interval` is the
/// growth countdown drawn for a new tree.
pub open spec fn entry_timer(t: TreeType, interval: i8, cfg: SimConfig) -> i8 {
    match t {
        TreeType::Empty => -1i8,
        TreeType::Tree => interval,
        TreeType::Fire => cfg.fire_exist_time,
    }
}

/// `a` comes strictly before `b` in a row-major scan.
pub open spec fn scan_before(a: Pos, b: Pos) -> bool {
    a.y < b.y || (a.y == b.y && a.x < b.x)
}

impl Forest {
    pub open spec fn rows(self) -> int {
        self.cells.len() as int
    }

    pub open spec fn cols(self) -> int {
        if self.cells.len() > 0 {
            self.cells[0].len() as int
        } else {
            0
        }
    }

    pub open spec fn in_bounds(self, y: int, x: int) -> bool {
        0 <= y < self.rows() && 0 <= x < self.cols()
    }

    pub open spec fn has(self, p: Pos) -> bool {
        self.in_bounds(p.y as int, p.x as int)
    }

    pub open spec fn cell(self, y: int, x: int) -> TreeType {
        self.cells[y][x]
    }

    pub open spec fn timer(self, y: int, x: int) -> i8 {
        self.timers[y][x]
    }

    pub open spec fn at(self, p: Pos) -> TreeType {
        self.cell(p.y as int, p.x as int)
    }

    pub open spec fn timer_at(self, p: Pos) -> i8 {
        self.timer(p.y as int, p.x as int)
    }

    /// Every row of both grids has the same number of columns.
    pub open spec fn rectangular(self) -> bool {
        &&& self.timers.len() == self.cells.len()
        &&& forall|y: int|
            0 <= y < self.rows() ==> #[trigger] self.cells[y].len() == self.cols()
                && self.timers[y].len() == self.cols()
    }

    /// The state is well formed under `cfg`: a rectangle in which every
    /// timer has the meaning its cell's state gives it.
    pub open spec fn valid(self, cfg: SimConfig) -> bool {
        &&& cfg.valid()
        &&& self.rectangular()
        &&& self.rows() <= usize::MAX
        &&& self.cols() <= usize::MAX
        &&& 1 <= self.clock <= cfg.grow_interval
        &&& forall|y: int, x: int|
            self.in_bounds(y, x) ==> timer_fits(#[trigger] self.cell(y, x), self.timer(y, x), cfg)
    }

    pub open spec fn same_shape(self, other: Forest) -> bool {
        self.rows() == other.rows() && self.cols() == other.cols()
    }

    /// This state with position `(y, x)` holding `t` and `timer`.
    pub open spec fn with_cell(self, y: int, x: int, t: TreeType, timer: i8) -> Forest {
        Forest {
            cells: self.cells.update(y, self.cells[y].update(x, t)),
            timers: self.timers.update(y, self.timers[y].update(x, timer)),
            clock: self.clock,
        }
    }

    /// The state after moving position `p` to state `t`: nothing changes
    /// when `p` is already in `t`; otherwise the cell takes the timer that
    /// `t` prescribes (`interval` for a tree).
    pub open spec fn transition(self, p: Pos, t: TreeType, interval: i8, cfg: SimConfig) -> Forest {
        if self.at(p) == t {
            self
        } else {
            self.with_cell(p.y as int, p.x as int, t, entry_timer(t, interval, cfg))
        }
    }

    /// The neighbor of `p` in direction `d` (0 up, 1 right, 2 down, 3 left),
    /// or `None` where that side of `p` is the border of the grid.
    pub open spec fn neighbor(self, p: Pos, d: int) -> Option<Pos> {
        if d == 0 {
            if p.y > 0 { Some(Pos { x: p.x, y: (p.y - 1) as usize }) } else { None }
        } else if d == 1 {
            if p.x + 1 < self.cols() { Some(Pos { x: (p.x + 1) as usize, y: p.y }) } else { None }
        } else if d == 2 {
            if p.y + 1 < self.rows() { Some(Pos { x: p.x, y: (p.y + 1) as usize }) } else { None }
        } else {
            if p.x > 0 { Some(Pos { x: (p.x - 1) as usize, y: p.y }) } else { None }
        }
    }

    /// Direction `d` of `p` leads to a neighbor in state `t`.
    pub open spec fn neighbor_in(self, p: Pos, d: int, t: TreeType) -> bool {
        self.neighbor(p, d) is Some && self.at(self.neighbor(p, d)->0) == t
    }

    /// Some neighbor of `p` is in state `t`.
    pub open spec fn has_neighbor_in(self, p: Pos, t: TreeType) -> bool {
        self.neighbor_in(p, 0, t) || self.neighbor_in(p, 1, t) || self.neighbor_in(p, 2, t)
            || self.neighbor_in(p, 3, t)
    }

    /// The first neighbor of `p` in state `t` met when the directions are
    /// tried in turn from `(start + k) % 4` on, up to the fourth.
    pub open spec fn first_from(self, p: Pos, t: TreeType, start: int, k: int) -> Option<Pos>
        decreases 4 - k,
    {
        if k >= 4 {
            None
        } else if self.neighbor_in(p, (start + k) % 4, t) {
            self.neighbor(p, (start + k) % 4)
        } else {
            self.first_from(p, t, start, k + 1)
        }
    }

    /// The first neighbor of `p` in state `t` when the directions are tried
    /// circularly from `start % 4`.
    pub open spec fn first_neighbor(self, p: Pos, t: TreeType, start: int) -> Option<Pos> {
        self.first_from(p, t, start % 4, 0)
    }

    /// The neighbors of `p` in state `t` among the first `d` directions, in
    /// direction order.
    pub open spec fn neighbors_upto(self, p: Pos, t: TreeType, d: int) -> Seq<Pos>
        decreases d,
    {
        if d <= 0 {
            Seq::empty()
        } else if self.neighbor_in(p, d - 1, t) {
            self.neighbors_upto(p, t, d - 1).push(self.neighbor(p, d - 1)->0)
        } else {
            self.neighbors_upto(p, t, d - 1)
        }
    }

    /// All neighbors of `p` in state `t`: up, right, down, left.
    pub open spec fn neighbors_in(self, p: Pos, t: TreeType) -> Seq<Pos> {
        self.neighbors_upto(p, t, 4)
    }

    /// `c` is the neighbor of `p` in one of the four directions.
    pub open spec fn is_neighbor(self, p: Pos, c: Pos) -> bool {
        self.neighbor(p, 0) == Some(c) || self.neighbor(p, 1) == Some(c) || self.neighbor(p, 2) == Some(c)
            || self.neighbor(p, 3) == Some(c)
    }

    /// `q` burns with its full time left: this tick it ignites the trees next to it.
    pub open spec fn ignites(self, q: Pos, cfg: SimConfig) -> bool {
        self.has(q) && self.at(q) == TreeType::Fire && self.timer_at(q) == cfg.fire_exist_time
    }

    /// The neighbor of `p` in direction `d` ignites its neighbors this tick.
    pub open spec fn ignited_from(self, p: Pos, d: int, cfg: SimConfig) -> bool {
        self.neighbor(p, d) is Some && self.ignites(self.neighbor(p, d)->0, cfg)
    }

    /// Some neighbor of `p` ignites its neighbors this tick.
    pub open spec fn next_to_front(self, p: Pos, cfg: SimConfig) -> bool {
        self.ignited_from(p, 0, cfg) || self.ignited_from(p, 1, cfg) || self.ignited_from(p, 2, cfg)
            || self.ignited_from(p, 3, cfg)
    }

    /// The state of `p` once the fires have spread: a fire whose time is
    /// up dies out, a tree next to a fresh fire catches fire, anything else
    /// stays.
    pub open spec fn fire_cell_after(self, p: Pos, cfg: SimConfig) -> TreeType {
        match self.at(p) {
            TreeType::Fire => if self.timer_at(p) == 0 { TreeType::Empty } else { TreeType::Fire },
            TreeType::Tree => if self.next_to_front(p, cfg) { TreeType::Fire } else { TreeType::Tree },
            TreeType::Empty => TreeType::Empty,
        }
    }

    /// The timer of `p` once the fires have spread: a burning fire counts
    /// down, a dead fire takes the sentinel, a new fire its full time.
    pub open spec fn fire_timer_after(self, p: Pos, cfg: SimConfig) -> i8 {
        match self.at(p) {
            TreeType::Fire => if self.timer_at(p) == 0 { -1i8 } else { (self.timer_at(p) - 1) as i8 },
            TreeType::Tree => if self.next_to_front(p, cfg) { cfg.fire_exist_time } else { self.timer_at(p) },
            TreeType::Empty => self.timer_at(p),
        }
    }

    /// `new` is this state after the fire sub-rule of a tick.
    pub open spec fn fire_spread_to(self, new: Forest, cfg: SimConfig) -> bool {
        &&& new.same_shape(self)
        &&& new.clock == self.clock
        &&& forall|p: Pos|
            self.has(p) ==> #[trigger] new.at(p) == self.fire_cell_after(p, cfg) && new.timer_at(p)
                == self.fire_timer_after(p, cfg)
    }

    /// `q` is a tree whose growth countdown ends this tick.
    pub open spec fn ripe(self, q: Pos) -> bool {
        self.has(q) && self.at(q) == TreeType::Tree && self.timer_at(q) == 1
    }

    /// The neighbor of `p` in direction `d` is a tree whose countdown ends this tick.
    pub open spec fn ripe_from(self, p: Pos, d: int) -> bool {
        self.neighbor(p, d) is Some && self.ripe(self.neighbor(p, d)->0)
    }

    /// Some neighbor of `p` is a tree whose countdown ends this tick.
    pub open spec fn next_to_ripe(self, p: Pos) -> bool {
        self.ripe_from(p, 0) || self.ripe_from(p, 1) || self.ripe_from(p, 2) || self.ripe_from(p, 3)
    }

    /// Position `p` after the growth sub-rule, as `new` has it: a tree
    /// counts down, and takes a fresh countdown from the rules' range when
    /// its countdown ends; a fire stays as it is; empty ground stays empty
    /// or holds a new tree, with a fresh countdown, next to a tree whose
    /// countdown ended.
    pub open spec fn grown_cell(self, new: Forest, cfg: SimConfig, p: Pos) -> bool {
        match self.at(p) {
            TreeType::Tree => new.at(p) == TreeType::Tree && if self.timer_at(p) == 1 {
                cfg.increase_min <= new.timer_at(p) <= cfg.increase_max
            } else {
                new.timer_at(p) == self.timer_at(p) - 1
            },
            TreeType::Fire => new.at(p) == TreeType::Fire && new.timer_at(p) == self.timer_at(p),
            TreeType::Empty => (new.at(p) == TreeType::Empty && new.timer_at(p) == self.timer_at(p)) || (
            new.at(p) == TreeType::Tree && cfg.increase_min <= new.timer_at(p) <= cfg.increase_max
                && self.next_to_ripe(p)),
        }
    }

    /// A tree whose countdown ends has, in `new`, grown into one of the
    /// neighbors that were empty, if it had any.
    pub open spec fn spread_from(self, new: Forest, q: Pos) -> bool {
        self.has_neighbor_in(q, TreeType::Empty) ==> exists|c: Pos|
            self.is_neighbor(q, c) && self.at(c) == TreeType::Empty && #[trigger] new.at(c) == TreeType::Tree
    }

    /// The state after the ripe tree at `p` takes the countdown `interval`
    /// and grows, with the countdown `new_interval`, on the first empty
    /// neighbor met when the directions are tried from `start`; and whether
    /// it found one.
    pub open spec fn spread_ripe(self, p: Pos, start: int, interval: i8, new_interval: i8, cfg: SimConfig) -> (Forest, bool) {
        let reset = self.with_cell(p.y as int, p.x as int, TreeType::Tree, interval);
        match reset.first_neighbor(p, TreeType::Empty, start) {
            Some(q) => (reset.transition(q, TreeType::Tree, new_interval, cfg), true),
            None => (reset, false),
        }
    }

    /// `c` was empty ground here and holds a tree in `new`.
    pub open spec fn new_tree(self, new: Forest, c: Pos) -> bool {
        self.has(c) && self.at(c) == TreeType::Empty && new.at(c) == TreeType::Tree
    }

    /// `src` names, for each tree that is new in `new`, the tree it grew
    /// from: a neighbor whose countdown ended. No tree grew two.
    pub open spec fn grown_from(self, new: Forest, src: Map<Pos, Pos>) -> bool {
        &&& forall|c: Pos|
            #![trigger new.at(c)]
            self.new_tree(new, c) ==> src.contains_key(c) && self.ripe(src[c]) && self.is_neighbor(src[c], c)
        &&& forall|c1: Pos, c2: Pos|
            #![trigger src[c1], src[c2]]
            self.new_tree(new, c1) && self.new_tree(new, c2) && src[c1] == src[c2] ==> c1 == c2
    }

    /// `new` is a possible outcome of the growth sub-rule of a tick.
    pub open spec fn trees_grown_to(self, new: Forest, cfg: SimConfig) -> bool {
        &&& new.same_shape(self)
        &&& new.clock == self.clock
        &&& forall|p: Pos| #![trigger new.at(p)] self.has(p) ==> self.grown_cell(new, cfg, p)
        &&& forall|q: Pos| #![trigger self.at(q)] self.ripe(q) ==> self.spread_from(new, q)
        &&& exists|src: Map<Pos, Pos>| #[trigger] self.grown_from(new, src)
    }

    /// Some position of the grid is in state `t`.
    pub open spec fn some_cell_in(self, t: TreeType) -> bool {
        exists|p: Pos| self.has(p) && #[trigger] self.at(p) == t
    }

    /// This state with the growth clock set to `clock`.
    pub open spec fn with_clock(self, clock: u8) -> Forest {
        Forest { cells: self.cells, timers: self.timers, clock }
    }

    /// The spawn sub-rule takes `from` to `to`, where this state is the
    /// tick's start: the growth clock counts down; when it runs out it is
    /// wound up again and, if the tick started with empty ground, a new
    /// tree appears on one such position. `fired` tells whether a position
    /// was picked.
    pub open spec fn spawn_to(self, from: Forest, to: Forest, cfg: SimConfig, fired: bool) -> bool {
        if from.clock > 1 {
            !fired && to == from.with_clock((from.clock - 1) as u8)
        } else {
            &&& fired == self.some_cell_in(TreeType::Empty)
            &&& !fired ==> to == from.with_clock(cfg.grow_interval)
            &&& fired ==> exists|p: Pos, iv: i8|
                self.has(p) && self.at(p) == TreeType::Empty && cfg.increase_min <= iv <= cfg.increase_max
                    && to == #[trigger] from.with_clock(cfg.grow_interval).transition(p, TreeType::Tree, iv, cfg)
        }
    }

    /// The ignition sub-rule takes `from` to `to`, where this state is the
    /// tick's start: with the chance the rules give, one position that was
    /// a tree at the start catches fire. It never happens at chance zero or
    /// without trees, and always happens at certainty when there are trees.
    /// `fired` tells whether a position was picked.
    pub open spec fn ignition_to(self, from: Forest, to: Forest, cfg: SimConfig, fired: bool) -> bool {
        &&& (cfg.take_fire_ppm == 0 || !self.some_cell_in(TreeType::Tree)) ==> !fired
        &&& (cfg.take_fire_ppm == PPM_SCALE && self.some_cell_in(TreeType::Tree)) ==> fired
        &&& !fired ==> to == from
        &&& fired ==> exists|p: Pos|
            self.has(p) && self.at(p) == TreeType::Tree && to == #[trigger] from.transition(
                p,
                TreeType::Fire,
                cfg.increase_min,
                cfg,
            )
    }

    /// One tick through the states `s1`, `s2`, `s3` to `new`: growth, spawn,
    /// fire spread and ignition, each reporting its flag in `flags`.
    pub open spec fn tick_via(
        self,
        s1: Forest,
        s2: Forest,
        s3: Forest,
        new: Forest,
        cfg: SimConfig,
        flags: (bool, bool, bool, bool),
    ) -> bool {
        &&& s1.valid(cfg)
        &&& s2.valid(cfg)
        &&& s3.valid(cfg)
        &&& new.valid(cfg)
        &&& self.trees_grown_to(s1, cfg)
        &&& flags.0 == self.state_changed(s1)
        &&& self.spawn_to(s1, s2, cfg, flags.1)
        &&& s2.fire_spread_to(s3, cfg)
        &&& flags.2 == s2.state_changed(s3)
        &&& self.ignition_to(s3, new, cfg, flags.3)
    }

    /// `new` is a possible outcome of one tick from this state, and
    /// `changed` is the tick's report: whether any sub-rule changed a
    /// state or picked a position.
    pub open spec fn tick_to(self, new: Forest, cfg: SimConfig, changed: bool) -> bool {
        exists|s1: Forest, s2: Forest, s3: Forest, flags: (bool, bool, bool, bool)|
            #[trigger] self.tick_via(s1, s2, s3, new, cfg, flags) && changed == (flags.0 || flags.1 || flags.2
                || flags.3)
    }

    /// Some position holds another state in `new` than in this state.
    pub open spec fn state_changed(self, new: Forest) -> bool {
        exists|p: Pos| self.has(p) && #[trigger] new.at(p) != self.at(p)
    }

    /// `s` lists, in row-major order, exactly the positions whose state is `t`.
    pub open spec fn is_scan_of(self, t: TreeType, s: Seq<Pos>) -> bool {
        &&& forall|i: int| 0 <= i < s.len() ==> self.has(#[trigger] s[i]) && self.at(s[i]) == t
        &&& forall|i: int, j: int| 0 <= i < j < s.len() ==> scan_before(#[trigger] s[i], #[trigger] s[j])
        &&& forall|p: Pos| self.has(p) && #[trigger] self.at(p) == t ==> exists|i: int| 0 <= i < s.len() && #[trigger] s[i] == p
    }
}

/// A neighbor lies in the grid and shares an edge with its cell.
pub proof fn lemma_neighbor_in_grid(f: Forest, p: Pos, d: int)
    requires
        f.has(p),
        f.rows() <= usize::MAX,
        f.cols() <= usize::MAX,
    ensures
        f.neighbor(p, d) matches Some(q) ==> f.has(q) && adjacent(p.y as int, p.x as int, q.y as int, q.x as int),
{
}

/// Two in-bounds positions are neighbors exactly when they share an edge.
pub proof fn lemma_is_neighbor(f: Forest, p: Pos, c: Pos)
    requires
        f.has(p),
        f.has(c),
        f.rows() <= usize::MAX,
        f.cols() <= usize::MAX,
    ensures
        f.is_neighbor(p, c) <==> adjacent(p.y as int, p.x as int, c.y as int, c.x as int),
        f.is_neighbor(p, c) <==> f.is_neighbor(c, p),
{
}

/// The search for a neighbor in state `t` from direction `start + k` on
/// finds one in the grid, or there is none among the directions it tries.
pub proof fn lemma_first_from(f: Forest, p: Pos, t: TreeType, start: int, k: int)
    requires
        f.has(p),
        f.rows() <= usize::MAX,
        f.cols() <= usize::MAX,
        0 <= k <= 4,
    ensures
        f.first_from(p, t, start, k) matches Some(q) ==> f.has(q) && f.at(q) == t && f.is_neighbor(p, q),
        f.first_from(p, t, start, k) is None ==> forall|e: int|
            k <= e < 4 ==> !#[trigger] f.neighbor_in(p, (start + e) % 4, t),
    decreases 4 - k,
{
    if k < 4 {
        lemma_first_from(f, p, t, start, k + 1);
        let d = (start + k) % 4;
        if f.neighbor_in(p, d, t) {
            lemma_neighbor_in_grid(f, p, d);
            assert(0 <= d < 4);
        }
    }
}

/// A search for a neighbor in state `t` that starts from a direction
/// `o < 4` finds one exactly when there is one.
pub proof fn lemma_first_neighbor(f: Forest, p: Pos, t: TreeType, o: int)
    requires
        f.has(p),
        f.rows() <= usize::MAX,
        f.cols() <= usize::MAX,
        0 <= o < 4,
    ensures
        f.first_neighbor(p, t, o) matches Some(q) ==> f.has(q) && f.at(q) == t && f.is_neighbor(p, q),
        f.first_neighbor(p, t, o) is None <==> !f.has_neighbor_in(p, t),
{
    lemma_first_from(f, p, t, o % 4, 0);
    assert(o % 4 == o);
    if f.first_neighbor(p, t, o) is None {
        assert(!f.neighbor_in(p, (o + 0) % 4, t));
        assert(!f.neighbor_in(p, (o + 1) % 4, t));
        assert(!f.neighbor_in(p, (o + 2) % 4, t));
        assert(!f.neighbor_in(p, (o + 3) % 4, t));
    }
}

/// A scan stays a scan of a state of the same shape in which the same
/// positions are in state `t`.
pub proof fn lemma_scan_transfer(f: Forest, g: Forest, t: TreeType, s: Seq<Pos>)
    requires
        f.is_scan_of(t, s),
        g.same_shape(f),
        forall|p: Pos| f.has(p) ==> (f.at(p) == t) == (#[trigger] g.at(p) == t),
    ensures
        g.is_scan_of(t, s),
{
    assert forall|p: Pos| g.has(p) && #[trigger] g.at(p) == t implies exists|i: int| 0 <= i < s.len() && #[trigger] s[i] == p by {
        assert(f.at(p) == t);
    }
    assert forall|i: int| 0 <= i < s.len() implies g.has(#[trigger] s[i]) && g.at(s[i]) == t by {
        assert(f.has(s[i]));
    }
}

/// Setting the growth clock within its range keeps a state valid.
pub proof fn lemma_with_clock(f: Forest, cfg: SimConfig, clock: u8)
    requires
        f.valid(cfg),
        1 <= clock <= cfg.grow_interval,
    ensures
        f.with_clock(clock).valid(cfg),
        f.with_clock(clock).same_shape(f),
{
    let g = f.with_clock(clock);
    assert forall|y: int, x: int| g.in_bounds(y, x) implies timer_fits(#[trigger] g.cell(y, x), g.timer(y, x), cfg) by {
        assert(f.in_bounds(y, x));
        assert(timer_fits(f.cell(y, x), f.timer(y, x), cfg));
    }
}

/// The cells of a state after a transition.
pub proof fn lemma_transition_cells(f: Forest, cfg: SimConfig, p: Pos, t: TreeType, iv: i8)
    requires
        f.valid(cfg),
        f.has(p),
        t == TreeType::Tree ==> cfg.increase_min <= iv <= cfg.increase_max,
    ensures
        f.transition(p, t, iv, cfg).valid(cfg),
        f.transition(p, t, iv, cfg).same_shape(f),
        f.transition(p, t, iv, cfg).clock == f.clock,
        f.transition(p, t, iv, cfg).at(p) == t,
        f.transition(p, t, iv, cfg).timer_at(p) == if f.at(p) == t { f.timer_at(p) } else { entry_timer(t, iv, cfg) },
        forall|c: Pos|
            f.has(c) && c != p ==> #[trigger] f.transition(p, t, iv, cfg).at(c) == f.at(c)
                && f.transition(p, t, iv, cfg).timer_at(c) == f.timer_at(c),
{
    if f.at(p) != t {
        lemma_with_cell(f, cfg, p.y as int, p.x as int, t, entry_timer(t, iv, cfg));
    }
}

/// A position with a neighbor in state `t` has such a neighbor in the grid.
pub proof fn lemma_neighbor_witness(f: Forest, p: Pos, t: TreeType) -> (c: Pos)
    requires
        f.has(p),
        f.has_neighbor_in(p, t),
        f.rows() <= usize::MAX,
        f.cols() <= usize::MAX,
    ensures
        f.has(c),
        f.at(c) == t,
        f.is_neighbor(p, c),
{
    let d = if f.neighbor_in(p, 0, t) {
        0
    } else if f.neighbor_in(p, 1, t) {
        1
    } else if f.neighbor_in(p, 2, t) {
        2
    } else {
        3
    };
    lemma_neighbor_in_grid(f, p, d);
    f.neighbor(p, d)->0
}

/// The neighbors listed among the first `d` directions are those
/// neighbors in state `t`.
pub proof fn lemma_neighbors_upto(f: Forest, p: Pos, t: TreeType, d: int, c: Pos)
    requires
        0 <= d <= 4,
    ensures
        f.neighbors_upto(p, t, d).contains(c) <==> f.at(c) == t && exists|e: int|
            0 <= e < d && #[trigger] f.neighbor(p, e) == Some(c),
    decreases d,
{
    if d > 0 {
        lemma_neighbors_upto(f, p, t, d - 1, c);
        let prev = f.neighbors_upto(p, t, d - 1);
        if f.neighbor_in(p, d - 1, t) {
            assert(f.neighbors_upto(p, t, d) == prev.push(f.neighbor(p, d - 1)->0));
            if f.neighbor(p, d - 1) == Some(c) {
                assert(f.neighbors_upto(p, t, d)[prev.len() as int] == c);
            }
            if prev.contains(c) {
                let j = choose|j: int| 0 <= j < prev.len() && prev[j] == c;
                assert(f.neighbors_upto(p, t, d)[j] == c);
            }
            if f.neighbors_upto(p, t, d).contains(c) {
                let j = choose|j: int| 0 <= j < prev.len() + 1 && f.neighbors_upto(p, t, d)[j] == c;
                if j < prev.len() {
                    assert(prev[j] == c);
                }
            }
        }
    }
}

/// Writing one in-bounds cell with a timer that fits its new state keeps a
/// valid state valid, keeps its shape, and changes nothing else.
pub proof fn lemma_with_cell(f: Forest, cfg: SimConfig, y: int, x: int, t: TreeType, timer: i8)
    requires
        f.valid(cfg),
        f.in_bounds(y, x),
        timer_fits(t, timer, cfg),
    ensures
        f.with_cell(y, x, t, timer).valid(cfg),
        f.with_cell(y, x, t, timer).same_shape(f),
        f.with_cell(y, x, t, timer).cell(y, x) == t,
        f.with_cell(y, x, t, timer).timer(y, x) == timer,
        forall|j: int, i: int|
            f.in_bounds(j, i) && !(j == y && i == x) ==> #[trigger] f.with_cell(y, x, t, timer).cell(j, i)
                == f.cell(j, i) && f.with_cell(y, x, t, timer).timer(j, i) == f.timer(j, i),
{
    let g = f.with_cell(y, x, t, timer);
    assert(f.cells[y].len() == f.cols());
    assert(f.cells[0].len() == f.cols());
    assert(g.cols() == f.cols());
    assert(g.rows() == f.rows());
    assert(g.timers.len() == g.cells.len());
    assert forall|j: int| 0 <= j < g.rows() implies #[trigger] g.cells[j].len() == g.cols()
        && g.timers[j].len() == g.cols() by {
        assert(f.cells[j].len() == f.cols());
    }
    assert forall|j: int, i: int| g.in_bounds(j, i) implies
        timer_fits(#[trigger] g.cell(j, i), g.timer(j, i), cfg) by {
        assert(f.in_bounds(j, i));
        assert(f.cells[j].len() == f.cols());
        if !(j == y && i == x) {
            assert(timer_fits(f.cell(j, i), f.timer(j, i), cfg));
        }
    }
    assert forall|j: int, i: int| f.in_bounds(j, i) && !(j == y && i == x) implies
        #[trigger] g.cell(j, i) == f.cell(j, i) && g.timer(j, i) == f.timer(j, i) by {
        assert(f.cells[j].len() == f.cols());
    }
}

} // verus!

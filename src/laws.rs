//! Properties of the automaton that hold across whole ticks.

use crate::cell::{adjacent, Pos, SimConfig, TreeType};
use crate::model::{lemma_neighbor_in_grid, lemma_transition_cells, lemma_with_clock, Forest};
use vstd::prelude::*;

verus! {

/// The states one tick passes through, taken from its description.
proof fn tick_parts(old: Forest, new: Forest, cfg: SimConfig, changed: bool) -> (parts: (
    Forest,
    Forest,
    Forest,
    (bool, bool, bool, bool),
))
    requires
        old.tick_to(new, cfg, changed),
    ensures
        old.tick_via(parts.0, parts.1, parts.2, new, cfg, parts.3),
{
    let (s1, s2, s3, flags) = choose|s1: Forest, s2: Forest, s3: Forest, flags: (bool, bool, bool, bool)|
        #[trigger] old.tick_via(s1, s2, s3, new, cfg, flags) && changed == (flags.0 || flags.1 || flags.2
            || flags.3);
    (s1, s2, s3, flags)
}

/// After a tick every position of the grid, which keeps its shape, holds
/// exactly one of the three states, with a timer that has that state's
/// meaning.
pub proof fn lemma_tick_keeps_cells_defined(old: Forest, new: Forest, cfg: SimConfig, changed: bool, p: Pos)
    requires
        old.valid(cfg),
        old.tick_to(new, cfg, changed),
        old.has(p),
    ensures
        new.valid(cfg),
        new.same_shape(old),
        new.has(p),
        (new.at(p) == TreeType::Empty) as int + (new.at(p) == TreeType::Tree) as int + (new.at(p)
            == TreeType::Fire) as int == 1,
        crate::model::timer_fits(new.at(p), new.timer_at(p), cfg),
{
    let (s1, s2, s3, flags) = tick_parts(old, new, cfg, changed);
    if s1.clock <= 1 && flags.1 {
        let (q, iv) = choose|q: Pos, iv: i8| old.has(q) && old.at(q) == TreeType::Empty
            && cfg.increase_min <= iv <= cfg.increase_max && s2 == #[trigger] s1.with_clock(cfg.grow_interval).transition(q, TreeType::Tree, iv, cfg);
        lemma_with_clock(s1, cfg, cfg.grow_interval);
        lemma_transition_cells(s1.with_clock(cfg.grow_interval), cfg, q, TreeType::Tree, iv);
    }
    if flags.3 {
        let q = choose|q: Pos| old.has(q) && old.at(q) == TreeType::Tree && new == #[trigger] s3.transition(
            q,
            TreeType::Fire,
            cfg.increase_min,
            cfg,
        );
        lemma_transition_cells(s3, cfg, q, TreeType::Fire, cfg.increase_min);
    }
    assert(new.in_bounds(p.y as int, p.x as int));
    assert(crate::model::timer_fits(new.cell(p.y as int, p.x as int), new.timer(p.y as int, p.x as int), cfg));
}

/// The position the spawn step of a tick picked, if any, and the cells it
/// left alone.
proof fn spawn_target(old: Forest, s1: Forest, s2: Forest, cfg: SimConfig, fired: bool) -> (t: Option<Pos>)
    requires
        s1.valid(cfg),
        old.same_shape(s1),
        old.spawn_to(s1, s2, cfg, fired),
    ensures
        t matches Some(q) ==> old.has(q) && old.at(q) == TreeType::Empty && s2.at(q) == TreeType::Tree && (
        s1.at(q) != TreeType::Tree ==> cfg.increase_min <= s2.timer_at(q) <= cfg.increase_max) && (s1.at(q)
            == TreeType::Tree ==> s2.timer_at(q) == s1.timer_at(q)),
        forall|p: Pos|
            s1.has(p) && t != Some(p) ==> #[trigger] s2.at(p) == s1.at(p) && s2.timer_at(p) == s1.timer_at(p),
{
    if s1.clock <= 1 && fired {
        let (q, iv) = choose|q: Pos, iv: i8| old.has(q) && old.at(q) == TreeType::Empty
            && cfg.increase_min <= iv <= cfg.increase_max && s2 == #[trigger] s1.with_clock(cfg.grow_interval).transition(q, TreeType::Tree, iv, cfg);
        lemma_with_clock(s1, cfg, cfg.grow_interval);
        lemma_transition_cells(s1.with_clock(cfg.grow_interval), cfg, q, TreeType::Tree, iv);
        Some(q)
    } else {
        None
    }
}

/// The position the ignition step of a tick picked, if any, and the cells
/// it left alone.
proof fn ignition_target(old: Forest, s3: Forest, new: Forest, cfg: SimConfig, fired: bool) -> (t: Option<Pos>)
    requires
        s3.valid(cfg),
        old.same_shape(s3),
        old.ignition_to(s3, new, cfg, fired),
    ensures
        t matches Some(q) ==> old.has(q) && old.at(q) == TreeType::Tree && new.at(q) == TreeType::Fire && (
        s3.at(q) != TreeType::Fire ==> new.timer_at(q) == cfg.fire_exist_time) && (s3.at(q) == TreeType::Fire
            ==> new.timer_at(q) == s3.timer_at(q)),
        forall|p: Pos|
            s3.has(p) && t != Some(p) ==> #[trigger] new.at(p) == s3.at(p) && new.timer_at(p) == s3.timer_at(p),
{
    if fired {
        let q = choose|q: Pos| old.has(q) && old.at(q) == TreeType::Tree && new == #[trigger] s3.transition(
            q,
            TreeType::Fire,
            cfg.increase_min,
            cfg,
        );
        lemma_transition_cells(s3, cfg, q, TreeType::Fire, cfg.increase_min);
        Some(q)
    } else {
        None
    }
}

/// A fire in the state the fire step of a tick starts from already burnt,
/// with the same timer, when the tick began.
proof fn lemma_fires_before_spread(old: Forest, s1: Forest, s2: Forest, cfg: SimConfig, fired: bool, t: Option<Pos>, q: Pos)
    requires
        old.has(q),
        old.trees_grown_to(s1, cfg),
        t matches Some(c) ==> old.at(c) == TreeType::Empty && s2.at(c) == TreeType::Tree,
        forall|p: Pos|
            s1.has(p) && t != Some(p) ==> #[trigger] s2.at(p) == s1.at(p) && s2.timer_at(p) == s1.timer_at(p),
    ensures
        (old.at(q) == TreeType::Fire) == (s2.at(q) == TreeType::Fire),
        old.at(q) == TreeType::Fire ==> s2.timer_at(q) == old.timer_at(q),
{
    assert(old.grown_cell(s1, cfg, q));
    if t != Some(q) {
        assert(s2.at(q) == s1.at(q));
    }
}

/// A cell that a tick turns into a tree gets a fresh growth countdown from
/// the rules' range.
pub proof fn lemma_new_tree_timer(old: Forest, new: Forest, cfg: SimConfig, changed: bool, p: Pos)
    requires
        old.valid(cfg),
        old.tick_to(new, cfg, changed),
        old.has(p),
        old.at(p) != TreeType::Tree,
        new.at(p) == TreeType::Tree,
    ensures
        cfg.increase_min <= new.timer_at(p) <= cfg.increase_max,
{
    let (s1, s2, s3, flags) = tick_parts(old, new, cfg, changed);
    let st = spawn_target(old, s1, s2, cfg, flags.1);
    let it = ignition_target(old, s3, new, cfg, flags.3);
    assert(old.grown_cell(s1, cfg, p));
    assert(new.at(p) == s3.at(p));
    assert(s3.at(p) == s2.fire_cell_after(p, cfg));
}

/// A fire counts down by one each tick and, once its time is up, leaves
/// empty ground with the sentinel timer; so its timer never rises and
/// stays within the burning time.
pub proof fn lemma_fire_counts_down(old: Forest, new: Forest, cfg: SimConfig, changed: bool, p: Pos)
    requires
        old.valid(cfg),
        old.tick_to(new, cfg, changed),
        old.has(p),
        old.at(p) == TreeType::Fire,
    ensures
        0 <= old.timer_at(p) <= cfg.fire_exist_time,
        old.timer_at(p) == 0 ==> new.at(p) == TreeType::Empty && new.timer_at(p) == -1,
        old.timer_at(p) > 0 ==> new.at(p) == TreeType::Fire && new.timer_at(p) == old.timer_at(p) - 1,
{
    let (s1, s2, s3, flags) = tick_parts(old, new, cfg, changed);
    let st = spawn_target(old, s1, s2, cfg, flags.1);
    let it = ignition_target(old, s3, new, cfg, flags.3);
    lemma_fires_before_spread(old, s1, s2, cfg, flags.1, st, p);
    assert(s3.at(p) == s2.fire_cell_after(p, cfg));
    assert(new.at(p) == s3.at(p));
    assert(crate::model::timer_fits(old.cell(p.y as int, p.x as int), old.timer(p.y as int, p.x as int), cfg));
}

/// New trees appear only next to a tree whose countdown ended, except on
/// at most one position: the random spawn.
pub proof fn lemma_growth_is_local(old: Forest, new: Forest, cfg: SimConfig, changed: bool, p: Pos, q: Pos)
    requires
        old.valid(cfg),
        old.tick_to(new, cfg, changed),
        old.has(p),
        old.has(q),
        old.at(p) != TreeType::Tree && new.at(p) == TreeType::Tree && !old.next_to_ripe(p),
        old.at(q) != TreeType::Tree && new.at(q) == TreeType::Tree && !old.next_to_ripe(q),
    ensures
        p == q,
        old.at(p) == TreeType::Empty,
{
    let (s1, s2, s3, flags) = tick_parts(old, new, cfg, changed);
    let st = spawn_target(old, s1, s2, cfg, flags.1);
    let it = ignition_target(old, s3, new, cfg, flags.3);
    assert(old.grown_cell(s1, cfg, p));
    assert(new.at(p) == s3.at(p));
    assert(s3.at(p) == s2.fire_cell_after(p, cfg));
    assert(old.grown_cell(s1, cfg, q));
    assert(new.at(q) == s3.at(q));
    assert(s3.at(q) == s2.fire_cell_after(q, cfg));
}

/// A cell catches fire only next to a fire that ignites its neighbors this
/// tick, except on at most one position, a tree at the tick's start: the
/// random ignition.
pub proof fn lemma_fire_is_local(old: Forest, new: Forest, cfg: SimConfig, changed: bool, p: Pos, q: Pos)
    requires
        old.valid(cfg),
        old.tick_to(new, cfg, changed),
        old.has(p),
        old.has(q),
        old.at(p) != TreeType::Fire && new.at(p) == TreeType::Fire && !old.next_to_front(p, cfg),
        old.at(q) != TreeType::Fire && new.at(q) == TreeType::Fire && !old.next_to_front(q, cfg),
    ensures
        p == q,
        old.at(p) == TreeType::Tree,
{
    let (s1, s2, s3, flags) = tick_parts(old, new, cfg, changed);
    let st = spawn_target(old, s1, s2, cfg, flags.1);
    let it = ignition_target(old, s3, new, cfg, flags.3);
    lemma_fire_source(old, s1, s2, s3, new, cfg, flags.1, st, it, p);
    lemma_fire_source(old, s1, s2, s3, new, cfg, flags.1, st, it, q);
}

/// A cell that catches fire during a tick without a fresh fire next to it
/// is the position the ignition step picked.
proof fn lemma_fire_source(
    old: Forest,
    s1: Forest,
    s2: Forest,
    s3: Forest,
    new: Forest,
    cfg: SimConfig,
    spawned: bool,
    st: Option<Pos>,
    it: Option<Pos>,
    p: Pos,
)
    requires
        old.valid(cfg),
        s2.valid(cfg),
        s2.same_shape(old),
        old.has(p),
        old.trees_grown_to(s1, cfg),
        st matches Some(c) ==> old.at(c) == TreeType::Empty && s2.at(c) == TreeType::Tree,
        forall|c: Pos|
            s1.has(c) && st != Some(c) ==> #[trigger] s2.at(c) == s1.at(c) && s2.timer_at(c) == s1.timer_at(c),
        s2.fire_spread_to(s3, cfg),
        it matches Some(c) ==> old.at(c) == TreeType::Tree,
        forall|c: Pos|
            s3.has(c) && it != Some(c) ==> #[trigger] new.at(c) == s3.at(c) && new.timer_at(c) == s3.timer_at(c),
        old.at(p) != TreeType::Fire,
        new.at(p) == TreeType::Fire,
        !old.next_to_front(p, cfg),
    ensures
        it == Some(p),
{
    if it != Some(p) {
        assert(new.at(p) == s3.at(p));
        assert(s3.at(p) == s2.fire_cell_after(p, cfg));
        lemma_fires_before_spread(old, s1, s2, cfg, spawned, st, p);
        assert forall|d: int| 0 <= d < 4 && #[trigger] s2.ignited_from(p, d, cfg) implies old.ignited_from(p, d, cfg) by {
            lemma_neighbor_in_grid(old, p, d);
            lemma_fires_before_spread(old, s1, s2, cfg, spawned, st, s2.neighbor(p, d)->0);
        }
        assert(s2.ignited_from(p, 0, cfg) ==> old.ignited_from(p, 0, cfg));
        assert(s2.ignited_from(p, 1, cfg) ==> old.ignited_from(p, 1, cfg));
        assert(s2.ignited_from(p, 2, cfg) ==> old.ignited_from(p, 2, cfg));
        assert(s2.ignited_from(p, 3, cfg) ==> old.ignited_from(p, 3, cfg));
    }
}

/// Moving a cell to the state it already holds changes nothing, its timer
/// included.
pub proof fn lemma_transition_idempotent(f: Forest, p: Pos, t: TreeType, interval: i8, cfg: SimConfig)
    requires
        f.at(p) == t,
    ensures
        f.transition(p, t, interval, cfg) == f,
        f.transition(p, t, interval, cfg).timer_at(p) == f.timer_at(p),
{
}

/// How many of the four directions of `p` lead to a neighbor in the grid.
pub open spec fn neighbor_count(f: Forest, p: Pos) -> int {
    (f.neighbor(p, 0) is Some) as int + (f.neighbor(p, 1) is Some) as int + (f.neighbor(p, 2) is Some) as int
        + (f.neighbor(p, 3) is Some) as int
}

/// How many borders of the grid `p` touches.
pub open spec fn border_sides(f: Forest, p: Pos) -> int {
    (p.y == 0) as int + (p.x + 1 == f.cols()) as int + (p.y + 1 == f.rows()) as int + (p.x == 0) as int
}

/// On a grid of at least two rows and two columns a cell has one neighbor
/// fewer for each border it touches: two at a corner, three elsewhere on
/// the border, four inside. Every neighbor lies in the grid and shares an
/// edge with the cell in plain coordinates, so nothing reaches around a
/// border to the far side.
pub proof fn lemma_border_neighbors(f: Forest, p: Pos)
    requires
        f.has(p),
        f.rows() >= 2,
        f.cols() >= 2,
        f.rows() <= usize::MAX,
        f.cols() <= usize::MAX,
    ensures
        neighbor_count(f, p) == 4 - border_sides(f, p),
        forall|d: int|
            0 <= d < 4 ==> (#[trigger] f.neighbor(p, d) matches Some(q) ==> f.has(q) && adjacent(
                p.y as int,
                p.x as int,
                q.y as int,
                q.x as int,
            )),
{
    assert forall|d: int| 0 <= d < 4 implies (#[trigger] f.neighbor(p, d) matches Some(q) ==> f.has(q) && adjacent(
        p.y as int,
        p.x as int,
        q.y as int,
        q.x as int,
    )) by {
        lemma_neighbor_in_grid(f, p, d);
    }
}

} // verus!

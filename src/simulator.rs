use crate::cell::{standard_rules, Pos, SimConfig, TreeType, PPM_SCALE};
use crate::drawable::TreeDrawable;
use crate::model::{entry_timer, lemma_first_neighbor, lemma_scan_transfer, lemma_with_clock, lemma_is_neighbor, lemma_transition_cells, lemma_neighbor_in_grid, lemma_neighbor_witness, lemma_neighbors_upto, lemma_with_cell, scan_before, timer_fits, Forest};
use crate::random::random_range;
use vstd::prelude::*;

verus! {

/// The automaton: a grid of cells with their timers, the growth clock, the
/// rules, and the surface it is drawn on.
pub struct TreeSimulator<T: TreeDrawable> {
    trees: Vec<Vec<TreeType>>,
    increase_counts: Vec<Vec<i8>>,
    tree_drawable: T,
    to_grow_count: u8,
    config: SimConfig,
}

impl<T: TreeDrawable> View for TreeSimulator<T> {
    type V = Forest;

    closed spec fn view(&self) -> Forest {
        Forest {
            cells: self.trees@.map_values(|r: Vec<TreeType>| r@),
            timers: self.increase_counts@.map_values(|r: Vec<i8>| r@),
            clock: self.to_grow_count,
        }
    }
}

/// The positions of one scan, split by state; each list is in row-major order.
pub struct PositionIndex {
    pub empty: Vec<Pos>,
    pub tree: Vec<Pos>,
    pub fire: Vec<Pos>,
}

impl PositionIndex {
    pub open spec fn spec_get(&self, t: TreeType) -> Vec<Pos> {
        match t {
            TreeType::Empty => self.empty,
            TreeType::Tree => self.tree,
            TreeType::Fire => self.fire,
        }
    }

    /// The list of positions in state `t`.
    pub fn get(&self, t: TreeType) -> (r: &Vec<Pos>)
        ensures
            *r == self.spec_get(t),
    {
        match t {
            TreeType::Empty => &self.empty,
            TreeType::Tree => &self.tree,
            TreeType::Fire => &self.fire,
        }
    }

    /// Each list holds exactly the positions of its state in `f`.
    pub open spec fn indexes(&self, f: Forest) -> bool {
        &&& f.is_scan_of(TreeType::Empty, self.empty@)
        &&& f.is_scan_of(TreeType::Tree, self.tree@)
        &&& f.is_scan_of(TreeType::Fire, self.fire@)
    }
}

/// `p` comes before the scan cursor `(y, x)`.
spec fn before_cursor(p: Pos, y: int, x: int) -> bool {
    p.y < y || (p.y == y && p.x < x)
}

/// `s` lists, in row-major order, exactly the positions in state `t` that a
/// scan has passed on its way to `(y, x)`.
spec fn scan_prefix(f: Forest, t: TreeType, s: Seq<Pos>, y: int, x: int) -> bool {
    &&& forall|i: int|
        0 <= i < s.len() ==> f.has(#[trigger] s[i]) && f.at(s[i]) == t && before_cursor(s[i], y, x)
    &&& forall|i: int, j: int| 0 <= i < j < s.len() ==> scan_before(#[trigger] s[i], #[trigger] s[j])
    &&& forall|p: Pos|
        f.has(p) && #[trigger] f.at(p) == t && before_cursor(p, y, x) ==> exists|k: int|
            0 <= k < s.len() && #[trigger] s[k] == p
}

/// The scan has passed `p`, which holds `c`: `s` grows by `p` when `c` is `t`.
proof fn lemma_scan_step(f: Forest, t: TreeType, s: Seq<Pos>, p: Pos, c: TreeType)
    requires
        scan_prefix(f, t, s, p.y as int, p.x as int),
        f.has(p),
        f.at(p) == c,
    ensures
        scan_prefix(f, t, if c == t { s.push(p) } else { s }, p.y as int, p.x + 1),
{
    let s2 = if c == t { s.push(p) } else { s };
    assert forall|q: Pos| f.has(q) && #[trigger] f.at(q) == t && before_cursor(q, p.y as int, p.x + 1)
        implies exists|k: int| 0 <= k < s2.len() && #[trigger] s2[k] == q by {
        if q == p {
            assert(s2[s.len() as int] == p);
        } else {
            assert(before_cursor(q, p.y as int, p.x as int));
            let k = choose|k: int| 0 <= k < s.len() && #[trigger] s[k] == q;
            assert(s2[k] == s[k]);
        }
    }
    assert forall|i: int| 0 <= i < s2.len() implies f.has(#[trigger] s2[i]) && f.at(s2[i]) == t
        && before_cursor(s2[i], p.y as int, p.x + 1) by {
        if i < s.len() {
            assert(s2[i] == s[i]);
        }
    }
    assert forall|i: int, j: int| 0 <= i < j < s2.len() implies scan_before(#[trigger] s2[i], #[trigger] s2[j]) by {
        assert(s2[i] == s[i]);
        if j < s.len() {
            assert(s2[j] == s[j]);
        }
    }
}

/// A scan that has passed every column of row `y` stands at the start of the next row.
proof fn lemma_scan_next_row(f: Forest, t: TreeType, s: Seq<Pos>, y: int)
    requires
        scan_prefix(f, t, s, y, f.cols()),
    ensures
        scan_prefix(f, t, s, y + 1, 0),
{
    assert forall|p: Pos| f.has(p) && #[trigger] f.at(p) == t && before_cursor(p, y + 1, 0) implies exists|k: int|
        0 <= k < s.len() && #[trigger] s[k] == p by {
        assert(before_cursor(p, y, f.cols()));
    }
    assert forall|i: int| 0 <= i < s.len() implies f.has(#[trigger] s[i]) && f.at(s[i]) == t
        && before_cursor(s[i], y + 1, 0) by {
    }
}

/// A scan that has passed every row is complete.
proof fn lemma_scan_done(f: Forest, t: TreeType, s: Seq<Pos>)
    requires
        scan_prefix(f, t, s, f.rows(), 0),
    ensures
        f.is_scan_of(t, s),
{
    assert forall|p: Pos| f.has(p) && #[trigger] f.at(p) == t implies exists|i: int|
        0 <= i < s.len() && #[trigger] s[i] == p by {
        assert(before_cursor(p, f.rows(), 0));
    }
}

/// A sub-rule that works through the row-major list `fp` has handled the
/// position `q` of that list once it is past its first `k` entries.
spec fn handled(fp: Seq<Pos>, k: int, q: Pos) -> bool {
    k >= fp.len() || scan_before(q, fp[k])
}

/// A fire next to `p` that ignites its neighbors has been handled.
spec fn lit_done(f: Forest, fp: Seq<Pos>, k: int, cfg: SimConfig, p: Pos) -> bool {
    ||| f.ignited_from(p, 0, cfg) && handled(fp, k, f.neighbor(p, 0)->0)
    ||| f.ignited_from(p, 1, cfg) && handled(fp, k, f.neighbor(p, 1)->0)
    ||| f.ignited_from(p, 2, cfg) && handled(fp, k, f.neighbor(p, 2)->0)
    ||| f.ignited_from(p, 3, cfg) && handled(fp, k, f.neighbor(p, 3)->0)
}

/// The state of `p` once the fire sub-rule has handled the first `k` fires.
spec fn fire_partial_cell(f: Forest, fp: Seq<Pos>, k: int, cfg: SimConfig, p: Pos) -> TreeType {
    match f.at(p) {
        TreeType::Fire => if handled(fp, k, p) { f.fire_cell_after(p, cfg) } else { TreeType::Fire },
        TreeType::Tree => if lit_done(f, fp, k, cfg, p) { TreeType::Fire } else { TreeType::Tree },
        TreeType::Empty => TreeType::Empty,
    }
}

/// The timer of `p` once the fire sub-rule has handled the first `k` fires.
spec fn fire_partial_timer(f: Forest, fp: Seq<Pos>, k: int, cfg: SimConfig, p: Pos) -> i8 {
    match f.at(p) {
        TreeType::Fire => if handled(fp, k, p) { f.fire_timer_after(p, cfg) } else { f.timer_at(p) },
        TreeType::Tree => if lit_done(f, fp, k, cfg, p) { cfg.fire_exist_time } else { f.timer_at(p) },
        TreeType::Empty => f.timer_at(p),
    }
}

/// Handling the `k`-th entry of the list marks that entry, and no other, as handled.
proof fn lemma_handled_step(f: Forest, t: TreeType, fp: Seq<Pos>, k: int, q: Pos)
    requires
        f.is_scan_of(t, fp),
        0 <= k < fp.len(),
        f.has(q),
        f.at(q) == t,
    ensures
        handled(fp, k + 1, q) == (handled(fp, k, q) || q == fp[k]),
        !handled(fp, k, fp[k]),
{
    let i = choose|i: int| 0 <= i < fp.len() && #[trigger] fp[i] == q;
    if i < k {
        assert(scan_before(fp[i], fp[k]));
        if k + 1 < fp.len() {
            assert(scan_before(fp[i], fp[k + 1]));
        }
    } else if i == k {
        if k + 1 < fp.len() {
            assert(scan_before(fp[k], fp[k + 1]));
        }
    } else {
        assert(scan_before(fp[k], fp[i]));
        if i > k + 1 {
            assert(scan_before(fp[k + 1], fp[i]));
        }
    }
}

/// Handling the `k`-th fire lights a tree exactly when that fire ignites
/// and stands next to the tree.
proof fn lemma_lit_step(f: Forest, fp: Seq<Pos>, k: int, cfg: SimConfig, c: Pos)
    requires
        f.valid(cfg),
        f.is_scan_of(TreeType::Fire, fp),
        0 <= k < fp.len(),
        f.has(c),
    ensures
        lit_done(f, fp, k + 1, cfg, c) == (lit_done(f, fp, k, cfg, c) || (f.ignites(fp[k], cfg)
            && f.is_neighbor(c, fp[k]))),
{
    assert(f.has(fp[k]));
    if f.ignited_from(c, 0, cfg) {
        lemma_handled_step(f, TreeType::Fire, fp, k, f.neighbor(c, 0)->0);
    }
    if f.ignited_from(c, 1, cfg) {
        lemma_handled_step(f, TreeType::Fire, fp, k, f.neighbor(c, 1)->0);
    }
    if f.ignited_from(c, 2, cfg) {
        lemma_handled_step(f, TreeType::Fire, fp, k, f.neighbor(c, 2)->0);
    }
    if f.ignited_from(c, 3, cfg) {
        lemma_handled_step(f, TreeType::Fire, fp, k, f.neighbor(c, 3)->0);
    }
}

/// Position `p` once the growth sub-rule has handled the first `k` trees
/// of the list `tp`.
spec fn grow_partial(f: Forest, cur: Forest, tp: Seq<Pos>, k: int, cfg: SimConfig, p: Pos) -> bool {
    if f.at(p) == TreeType::Tree && !handled(tp, k, p) {
        cur.at(p) == TreeType::Tree && cur.timer_at(p) == f.timer_at(p)
    } else {
        f.grown_cell(cur, cfg, p)
    }
}

/// A `rows` by `cols` grid holding `v` everywhere.
fn filled_grid<A: Copy>(rows: usize, cols: usize, v: A) -> (g: Vec<Vec<A>>)
    ensures
        g@.len() == rows,
        forall|y: int| 0 <= y < rows ==> (#[trigger] g@[y])@ == Seq::new(cols as nat, |_i: int| v),
{
    let mut g: Vec<Vec<A>> = Vec::new();
    for y in 0..rows
        invariant
            g@.len() == y,
            forall|j: int| 0 <= j < y ==> (#[trigger] g@[j])@ == Seq::new(cols as nat, |_i: int| v),
    {
        let mut row: Vec<A> = Vec::new();
        for x in 0..cols
            invariant
                row@ == Seq::new(x as nat, |_i: int| v),
        {
            row.push(v);
            assert(row@ =~= Seq::new((x + 1) as nat, |_i: int| v));
        }
        g.push(row);
    }
    g
}

impl<T: TreeDrawable> TreeSimulator<T> {
    /// The rules this automaton runs under.
    pub closed spec fn rules(&self) -> SimConfig {
        self.config
    }

    /// The surface this automaton draws on.
    pub closed spec fn drawable(&self) -> T {
        self.tree_drawable
    }

    /// The automaton's state is well formed under its rules.
    pub open spec fn wf(&self) -> bool {
        self@.valid(self.rules())
    }

    /// Row `y` of the model is row `y` of the grids.
    proof fn lemma_row(&self, y: int)
        requires
            self.wf(),
            0 <= y < self@.rows(),
        ensures
            self.trees@.len() == self@.rows(),
            self.increase_counts@.len() == self@.rows(),
            self.trees@[y]@ == self@.cells[y],
            self.increase_counts@[y]@ == self@.timers[y],
            self.trees@[y]@.len() == self@.cols(),
            self.increase_counts@[y]@.len() == self@.cols(),
    {
        assert(self@.cells[y].len() == self@.cols());
    }

    /// Everything but the cells, their timers and the growth clock is as in `other`.
    pub open spec fn same_setup(&self, other: &Self) -> bool {
        self.rules() == other.rules() && self.drawable() == other.drawable()
    }

    /// An automaton with the standard rules, sized after `tree_drawable`;
    /// `None` when the surface reports no room for a single cell.
    pub fn default(tree_drawable: T) -> (r: Option<Self>)
        ensures
            r matches Some(s) ==> {
                &&& s.wf()
                &&& s.rules() == standard_rules()
                &&& s.drawable() == tree_drawable
                &&& s@.rows() > 0 && s@.cols() > 0
                &&& s@.clock == s.rules().grow_interval
                &&& forall|y: int, x: int| s@.in_bounds(y, x) ==> #[trigger] s@.cell(y, x) == TreeType::Empty
            },
    {
        Self::new(tree_drawable, SimConfig::standard())
    }

    /// An automaton with the rules `config`, sized after `tree_drawable`:
    /// one column per unit of width and one row per unit of height, every
    /// cell empty; `None` when the surface reports a zero width or height.
    pub fn new(tree_drawable: T, config: SimConfig) -> (r: Option<Self>)
        requires
            config.valid(),
        ensures
            r matches Some(s) ==> {
                &&& s.wf()
                &&& s.rules() == config
                &&& s.drawable() == tree_drawable
                &&& s@.rows() > 0 && s@.cols() > 0
                &&& s@.clock == config.grow_interval
                &&& forall|y: int, x: int| s@.in_bounds(y, x) ==> #[trigger] s@.cell(y, x) == TreeType::Empty
            },
    {
        let size = tree_drawable.size();
        let columns = size.width as usize;
        let rows = size.height as usize;
        Self::with_dimensions(tree_drawable, columns, rows, config)
    }

    /// An automaton with the rules `config` on a `rows` by `columns` grid,
    /// every cell empty; `None` when either dimension is zero.
    pub fn with_dimensions(tree_drawable: T, columns: usize, rows: usize, config: SimConfig) -> (r: Option<Self>)
        requires
            config.valid(),
        ensures
            r is None <==> (columns == 0 || rows == 0),
            r matches Some(s) ==> {
                &&& s.wf()
                &&& s.rules() == config
                &&& s.drawable() == tree_drawable
                &&& s@.rows() == rows
                &&& s@.cols() == columns
                &&& s@.clock == config.grow_interval
                &&& forall|y: int, x: int| s@.in_bounds(y, x) ==> #[trigger] s@.cell(y, x) == TreeType::Empty
            },
    {
        if columns == 0 || rows == 0 {
            return None;
        }
        let trees = filled_grid(rows, columns, TreeType::Empty);
        let increase_counts = filled_grid(rows, columns, -1i8);
        assert(rows > 0 ==> trees@[0]@.len() == columns);
        let s = TreeSimulator {
            trees,
            increase_counts,
            tree_drawable,
            to_grow_count: config.grow_interval,
            config,
        };
        assert forall|y: int, x: int| s@.in_bounds(y, x) implies
            #[trigger] s@.cell(y, x) == TreeType::Empty
            && timer_fits(s@.cell(y, x), s@.timer(y, x), config) by {
            assert(s@.cells[y] == s.trees@[y]@);
            assert(s@.timers[y] == s.increase_counts@[y]@);
        }
        assert(s@.rectangular()) by {
            assert forall|y: int| 0 <= y < s@.rows() implies #[trigger] s@.cells[y].len() == s@.cols()
                && s@.timers[y].len() == s@.cols() by {
                assert(s@.cells[y] == s.trees@[y]@);
                assert(s@.timers[y] == s.increase_counts@[y]@);
                assert(s@.cells[0] == s.trees@[0]@);
            }
        }
        assert(s@.cells[0] == s.trees@[0]@);
        Some(s)
    }

    /// The grid, row by row.
    pub fn trees(&self) -> (r: &Vec<Vec<TreeType>>)
        ensures
            r@.map_values(|row: Vec<TreeType>| row@) == self@.cells,
    {
        &self.trees
    }

    /// The surface this automaton draws on.
    pub fn drawable_ref(&self) -> (r: &T)
        ensures
            *r == self.drawable(),
    {
        &self.tree_drawable
    }

    /// The rules this automaton runs under.
    pub fn config(&self) -> (c: SimConfig)
        ensures
            c == self.rules(),
    {
        self.config
    }

    /// The state of position `pos`.
    pub fn get_tree_type(&self, pos: &Pos) -> (r: &TreeType)
        requires
            self.wf(),
            self@.has(*pos),
        ensures
            *r == self@.at(*pos),
    {
        proof {
            self.lemma_row(pos.y as int);
        }
        &self.trees[pos.y][pos.x]
    }

    /// The timer of position `pos`.
    pub fn get_timer(&self, pos: &Pos) -> (r: i8)
        requires
            self.wf(),
            self@.has(*pos),
        ensures
            r == self@.timer_at(*pos),
    {
        proof {
            self.lemma_row(pos.y as int);
        }
        self.increase_counts[pos.y][pos.x]
    }

    /// Moves position `pos` to state `tree_type`. A cell already in that
    /// state keeps its timer; otherwise the timer becomes `-1` on empty
    /// ground, `interval` on a new tree and the burning time on a new fire.
    pub fn transition(&mut self, pos: &Pos, tree_type: TreeType, interval: i8)
        requires
            old(self).wf(),
            old(self)@.has(*pos),
            tree_type == TreeType::Tree ==> old(self).rules().increase_min <= interval
                <= old(self).rules().increase_max,
        ensures
            final(self).wf(),
            final(self).same_setup(old(self)),
            final(self)@ == old(self)@.transition(*pos, tree_type, interval, old(self).rules()),
            final(self)@.same_shape(old(self)@),
            final(self)@.clock == old(self)@.clock,
            final(self)@.at(*pos) == tree_type,
            final(self)@.timer_at(*pos) == if old(self)@.at(*pos) == tree_type {
                old(self)@.timer_at(*pos)
            } else {
                entry_timer(tree_type, interval, old(self).rules())
            },
            forall|c: Pos|
                old(self)@.has(c) && c != *pos ==> #[trigger] final(self)@.at(c) == old(self)@.at(c)
                    && final(self)@.timer_at(c) == old(self)@.timer_at(c),
    {
        let ghost before = self@;
        let ghost cfg = self.config;
        let y = pos.y;
        let x = pos.x;
        proof {
            self.lemma_row(y as int);
        }
        if self.trees[y][x] == tree_type {
            return;
        }
        let timer: i8 = match tree_type {
            TreeType::Empty => -1,
            TreeType::Tree => interval,
            TreeType::Fire => self.config.fire_exist_time,
        };
        self.increase_counts[y][x] = timer;
        self.trees[y][x] = tree_type;
        let ghost after = before.with_cell(y as int, x as int, tree_type, entry_timer(tree_type, interval, cfg));
        assert(self@.cells =~~= after.cells);
        assert(self@.timers =~~= after.timers);
        proof {
            lemma_with_cell(before, cfg, y as int, x as int, tree_type, entry_timer(tree_type, interval, cfg));
        }
    }

    /// Sets the timer of `pos`, whose state stays.
    fn set_timer(&mut self, pos: &Pos, timer: i8)
        requires
            old(self).wf(),
            old(self)@.has(*pos),
            timer_fits(old(self)@.at(*pos), timer, old(self).rules()),
        ensures
            final(self).wf(),
            final(self).same_setup(old(self)),
            final(self)@.same_shape(old(self)@),
            final(self)@.clock == old(self)@.clock,
            final(self)@.at(*pos) == old(self)@.at(*pos),
            final(self)@.timer_at(*pos) == timer,
            final(self)@ == old(self)@.with_cell(pos.y as int, pos.x as int, old(self)@.at(*pos), timer),
            forall|c: Pos|
                old(self)@.has(c) && c != *pos ==> #[trigger] final(self)@.at(c) == old(self)@.at(c)
                    && final(self)@.timer_at(c) == old(self)@.timer_at(c),
    {
        let ghost before = self@;
        let ghost cfg = self.config;
        let y = pos.y;
        let x = pos.x;
        proof {
            self.lemma_row(y as int);
        }
        self.increase_counts[y][x] = timer;
        let ghost after = before.with_cell(y as int, x as int, before.at(*pos), timer);
        assert(self@.cells =~~= after.cells);
        assert(self@.timers =~~= after.timers);
        proof {
            lemma_with_cell(before, cfg, y as int, x as int, before.at(*pos), timer);
        }
    }

    /// A growth countdown drawn uniformly from the rules' range.
    pub fn get_increase_interval(&self) -> (r: i8)
        requires
            self.rules().valid(),
        ensures
            self.rules().increase_min <= r <= self.rules().increase_max,
    {
        let lo = self.config.increase_min as u64;
        let hi = self.config.increase_max as u64 + 1;
        random_range(lo, hi) as i8
    }

    /// Moves position `pos` to state `tree_type`, drawing a fresh growth
    /// countdown when a tree appears. A cell already in that state is left
    /// as it is.
    pub fn set_tree_type(&mut self, pos: &Pos, tree_type: TreeType)
        requires
            old(self).wf(),
            old(self)@.has(*pos),
        ensures
            final(self).wf(),
            final(self).same_setup(old(self)),
            exists|iv: i8|
                old(self).rules().increase_min <= iv <= old(self).rules().increase_max
                && final(self)@ == #[trigger] old(self)@.transition(*pos, tree_type, iv, old(self).rules()),
    {
        let interval = self.get_increase_interval();
        self.transition(pos, tree_type, interval);
    }

    /// The positions in state `target_type`, in row-major order.
    pub fn search_positions(&self, target_type: TreeType) -> (r: Vec<Pos>)
        requires
            self.wf(),
        ensures
            self@.is_scan_of(target_type, r@),
    {
        let mut positions: Vec<Pos> = Vec::new();
        let rows = self.trees.len();
        for row_index in 0..rows
            invariant
                self.wf(),
                rows == self@.rows(),
                scan_prefix(self@, target_type, positions@, row_index as int, 0),
        {
            proof {
                self.lemma_row(row_index as int);
            }
            let row = &self.trees[row_index];
            for column_index in 0..row.len()
                invariant
                    self.wf(),
                    rows == self@.rows(),
                    row_index < rows,
                    row@ == self@.cells[row_index as int],
                    row@.len() == self@.cols(),
                    scan_prefix(self@, target_type, positions@, row_index as int, column_index as int),
            {
                let ghost before = positions@;
                let pos = Pos { x: column_index, y: row_index };
                proof {
                    lemma_scan_step(self@, target_type, before, pos, row@[column_index as int]);
                }
                if row[column_index] == target_type {
                    positions.push(pos);
                }
            }
            proof {
                lemma_scan_next_row(self@, target_type, positions@, row_index as int);
            }
        }
        proof {
            lemma_scan_done(self@, target_type, positions@);
        }
        positions
    }

    /// One row-major scan of the grid, split by state.
    pub fn search_all_positions(&self) -> (r: PositionIndex)
        requires
            self.wf(),
        ensures
            r.indexes(self@),
            r.empty@.len() + r.tree@.len() + r.fire@.len() == self@.rows() * self@.cols(),
    {
        let mut empty: Vec<Pos> = Vec::new();
        let mut tree: Vec<Pos> = Vec::new();
        let mut fire: Vec<Pos> = Vec::new();
        let rows = self.trees.len();
        for row_index in 0..rows
            invariant
                self.wf(),
                rows == self@.rows(),
                scan_prefix(self@, TreeType::Empty, empty@, row_index as int, 0),
                scan_prefix(self@, TreeType::Tree, tree@, row_index as int, 0),
                scan_prefix(self@, TreeType::Fire, fire@, row_index as int, 0),
                empty@.len() + tree@.len() + fire@.len() == row_index * self@.cols(),
        {
            proof {
                self.lemma_row(row_index as int);
            }
            let row = &self.trees[row_index];
            for column_index in 0..row.len()
                invariant
                    self.wf(),
                    rows == self@.rows(),
                    row_index < rows,
                    row@ == self@.cells[row_index as int],
                    row@.len() == self@.cols(),
                    scan_prefix(self@, TreeType::Empty, empty@, row_index as int, column_index as int),
                    scan_prefix(self@, TreeType::Tree, tree@, row_index as int, column_index as int),
                    scan_prefix(self@, TreeType::Fire, fire@, row_index as int, column_index as int),
                    empty@.len() + tree@.len() + fire@.len() == row_index * self@.cols() + column_index,
            {
                let ghost c = row@[column_index as int];
                let pos = Pos { x: column_index, y: row_index };
                proof {
                    lemma_scan_step(self@, TreeType::Empty, empty@, pos, c);
                    lemma_scan_step(self@, TreeType::Tree, tree@, pos, c);
                    lemma_scan_step(self@, TreeType::Fire, fire@, pos, c);
                }
                match row[column_index] {
                    TreeType::Empty => empty.push(pos),
                    TreeType::Tree => tree.push(pos),
                    TreeType::Fire => fire.push(pos),
                }
            }
            proof {
                assert(row_index * self@.cols() + self@.cols() == (row_index + 1) * self@.cols()) by (nonlinear_arith);
                lemma_scan_next_row(self@, TreeType::Empty, empty@, row_index as int);
                lemma_scan_next_row(self@, TreeType::Tree, tree@, row_index as int);
                lemma_scan_next_row(self@, TreeType::Fire, fire@, row_index as int);
            }
        }
        proof {
            lemma_scan_done(self@, TreeType::Empty, empty@);
            lemma_scan_done(self@, TreeType::Tree, tree@);
            lemma_scan_done(self@, TreeType::Fire, fire@);
        }
        PositionIndex { empty, tree, fire }
    }

    /// The neighbor of `pos` in direction `d` (0 up, 1 right, 2 down,
    /// 3 left), if the grid extends that way.
    pub fn neighbor(&self, pos: &Pos, d: u64) -> (r: Option<Pos>)
        requires
            self.wf(),
            self@.has(*pos),
            d < 4,
        ensures
            r == self@.neighbor(*pos, d as int),
    {
        proof {
            self.lemma_row(pos.y as int);
            self.lemma_row(0);
        }
        let rows = self.trees.len();
        let cols = self.trees[0].len();
        if d == 0 {
            if pos.y > 0 { Some(Pos { x: pos.x, y: pos.y - 1 }) } else { None }
        } else if d == 1 {
            if pos.x + 1 < cols { Some(Pos { x: pos.x + 1, y: pos.y }) } else { None }
        } else if d == 2 {
            if pos.y + 1 < rows { Some(Pos { x: pos.x, y: pos.y + 1 }) } else { None }
        } else {
            if pos.x > 0 { Some(Pos { x: pos.x - 1, y: pos.y }) } else { None }
        }
    }

    /// The first neighbor of `pos` in state `state`, trying the directions
    /// up, right, down, left circularly from `start_offset % 4`.
    pub fn first_neighbor_with_state(&self, pos: &Pos, state: TreeType, start_offset: u64) -> (r: Option<Pos>)
        requires
            self.wf(),
            self@.has(*pos),
        ensures
            r == self@.first_neighbor(*pos, state, start_offset as int),
    {
        let start = start_offset % 4;
        let mut k: u64 = 0;
        while k < 4
            invariant
                self.wf(),
                self@.has(*pos),
                start == start_offset % 4,
                k <= 4,
                self@.first_neighbor(*pos, state, start_offset as int) == self@.first_from(*pos, state, start as int, k as int),
            decreases 4 - k,
        {
            let d = (start + k) % 4;
            if let Some(q) = self.neighbor(pos, d) {
                proof {
                    lemma_neighbor_in_grid(self@, *pos, d as int);
                }
                if *self.get_tree_type(&q) == state {
                    return Some(q);
                }
            }
            k = k + 1;
        }
        None
    }

    /// An empty neighbor of `(x, y)`, looked for from a direction drawn at
    /// random, or `None` when no neighbor is empty.
    pub fn search_around_none_pos(&self, x: usize, y: usize) -> (r: Option<Pos>)
        requires
            self.wf(),
            self@.in_bounds(y as int, x as int),
        ensures
            exists|o: int| 0 <= o < 4 && r == #[trigger] self@.first_neighbor(Pos { x, y }, TreeType::Empty, o),
    {
        let offset = random_range(0, 4);
        let r = self.first_neighbor_with_state(&Pos { x, y }, TreeType::Empty, offset);
        assert(offset % 4 == offset);
        r
    }

    /// The tree neighbors of `pos`, in the order up, right, down, left.
    pub fn search_around_tree_pos(&self, pos: &Pos) -> (r: Vec<Pos>)
        requires
            self.wf(),
            self@.has(*pos),
        ensures
            r@ == self@.neighbors_in(*pos, TreeType::Tree),
    {
        let mut tree_pos: Vec<Pos> = Vec::new();
        for d in 0..4u64
            invariant
                self.wf(),
                self@.has(*pos),
                tree_pos@ == self@.neighbors_upto(*pos, TreeType::Tree, d as int),
        {
            if let Some(q) = self.neighbor(pos, d) {
                proof {
                    lemma_neighbor_in_grid(self@, *pos, d as int);
                }
                if *self.get_tree_type(&q) == TreeType::Tree {
                    tree_pos.push(q);
                }
            }
        }
        tree_pos
    }

    /// Sets every tree next to `pos` on fire; reports whether there was one.
    fn ignite_neighbors(&mut self, pos: &Pos) -> (r: bool)
        requires
            old(self).wf(),
            old(self)@.has(*pos),
        ensures
            final(self).wf(),
            final(self).same_setup(old(self)),
            final(self)@.same_shape(old(self)@),
            final(self)@.clock == old(self)@.clock,
            forall|c: Pos|
                old(self)@.has(c) ==> #[trigger] final(self)@.at(c) == (if old(self)@.at(c) == TreeType::Tree
                    && old(self)@.is_neighbor(*pos, c) {
                    TreeType::Fire
                } else {
                    old(self)@.at(c)
                }) && final(self)@.timer_at(c) == (if old(self)@.at(c) == TreeType::Tree && old(self)@.is_neighbor(
                    *pos,
                    c,
                ) {
                    old(self).rules().fire_exist_time
                } else {
                    old(self)@.timer_at(c)
                }),
            r == old(self)@.has_neighbor_in(*pos, TreeType::Tree),
    {
        let ghost start = self@;
        let ghost cfg = self.config;
        let trees = self.search_around_tree_pos(pos);
        let mut is_dirty = false;
        let mut i: usize = 0;
        while i < trees.len()
            invariant
                self.wf(),
                self.same_setup(old(self)),
                start == old(self)@,
                cfg == self.rules(),
                self@.same_shape(start),
                self@.clock == start.clock,
                start.has(*pos),
                trees@ == start.neighbors_in(*pos, TreeType::Tree),
                i <= trees.len(),
                is_dirty == (i > 0),
                forall|c: Pos|
                    start.has(c) ==> #[trigger] self@.at(c) == (if start.at(c) == TreeType::Tree
                        && trees@.subrange(0, i as int).contains(c) {
                        TreeType::Fire
                    } else {
                        start.at(c)
                    }) && self@.timer_at(c) == (if start.at(c) == TreeType::Tree && trees@.subrange(
                        0,
                        i as int,
                    ).contains(c) {
                        cfg.fire_exist_time
                    } else {
                        start.timer_at(c)
                    }),
            decreases trees.len() - i,
        {
            let q = trees[i];
            proof {
                lemma_neighbors_upto(start, *pos, TreeType::Tree, 4, q);
                assert(trees@.contains(q));
                let e = choose|e: int| 0 <= e < 4 && #[trigger] start.neighbor(*pos, e) == Some(q);
                lemma_neighbor_in_grid(start, *pos, e);
            }
            let ghost mid = self@;
            self.transition(&q, TreeType::Fire, self.config.increase_min);
            proof {
                assert forall|c: Pos| start.has(c) implies #[trigger] self@.at(c) == (if start.at(c) == TreeType::Tree
                    && trees@.subrange(0, i + 1).contains(c) {
                    TreeType::Fire
                } else {
                    start.at(c)
                }) && self@.timer_at(c) == (if start.at(c) == TreeType::Tree && trees@.subrange(0, i + 1).contains(
                    c,
                ) {
                    cfg.fire_exist_time
                } else {
                    start.timer_at(c)
                }) by {
                    let s0 = trees@.subrange(0, i as int);
                    let s1 = trees@.subrange(0, i + 1);
                    assert(s1 =~= s0.push(q));
                    if c == q {
                        assert(s1[i as int] == q);
                    } else {
                        if s0.contains(c) {
                            let j = choose|j: int| 0 <= j < s0.len() && s0[j] == c;
                            assert(s1[j] == c);
                        }
                        if s1.contains(c) {
                            let j = choose|j: int| 0 <= j < s1.len() && s1[j] == c;
                            assert(j < s0.len());
                            assert(s0[j] == c);
                        }
                    }
                    assert(mid.at(c) == (if start.at(c) == TreeType::Tree && trees@.subrange(0, i as int).contains(c) {
                        TreeType::Fire
                    } else {
                        start.at(c)
                    }));
                }
            }
            is_dirty = true;
            i = i + 1;
        }
        proof {
            assert(trees@.subrange(0, trees@.len() as int) =~= trees@);
            assert forall|c: Pos| start.has(c) implies #[trigger] trees@.contains(c) == (start.at(c) == TreeType::Tree
                && start.is_neighbor(*pos, c)) by {
                lemma_neighbors_upto(start, *pos, TreeType::Tree, 4, c);
                if start.is_neighbor(*pos, c) {
                    if start.neighbor(*pos, 0) == Some(c) {
                    } else if start.neighbor(*pos, 1) == Some(c) {
                    } else if start.neighbor(*pos, 2) == Some(c) {
                    } else {
                        assert(start.neighbor(*pos, 3) == Some(c));
                    }
                }
            }
            if start.neighbor_in(*pos, 0, TreeType::Tree) {
                lemma_neighbors_upto(start, *pos, TreeType::Tree, 4, start.neighbor(*pos, 0)->0);
            }
            if start.neighbor_in(*pos, 1, TreeType::Tree) {
                lemma_neighbors_upto(start, *pos, TreeType::Tree, 4, start.neighbor(*pos, 1)->0);
            }
            if start.neighbor_in(*pos, 2, TreeType::Tree) {
                lemma_neighbors_upto(start, *pos, TreeType::Tree, 4, start.neighbor(*pos, 2)->0);
            }
            if start.neighbor_in(*pos, 3, TreeType::Tree) {
                lemma_neighbors_upto(start, *pos, TreeType::Tree, 4, start.neighbor(*pos, 3)->0);
            }
            if trees@.len() > 0 {
                lemma_neighbors_upto(start, *pos, TreeType::Tree, 4, trees@[0]);
                assert(trees@.contains(trees@[0]));
                let e = choose|e: int| 0 <= e < 4 && #[trigger] start.neighbor(*pos, e) == Some(trees@[0]);
                assert(start.neighbor_in(*pos, e, TreeType::Tree));
            }
        }
        is_dirty
    }

    /// The fire sub-rule of a tick, over `fire_positions`, the fires listed
    /// at the tick's start: a fire with its full time left ignites the
    /// trees next to it, a fire whose time is up dies out to empty ground,
    /// and every other fire counts down. Reports whether any position
    /// changed state.
    pub fn update_fire_spread(&mut self, fire_positions: &Vec<Pos>) -> (r: bool)
        requires
            old(self).wf(),
            old(self)@.is_scan_of(TreeType::Fire, fire_positions@),
        ensures
            final(self).wf(),
            final(self).same_setup(old(self)),
            old(self)@.fire_spread_to(final(self)@, old(self).rules()),
            r == old(self)@.state_changed(final(self)@),
    {
        let ghost start = self@;
        let ghost cfg = self.config;
        let ghost fp = fire_positions@;
        let mut is_dirty = false;
        let n = fire_positions.len();
        for k in 0..n
            invariant
                n == fp.len(),
                fp == fire_positions@,
                self.wf(),
                self.same_setup(old(self)),
                start == old(self)@,
                cfg == self.rules(),
                start.is_scan_of(TreeType::Fire, fp),
                start.valid(cfg),
                self@.same_shape(start),
                self@.clock == start.clock,
                forall|c: Pos|
                    start.has(c) ==> #[trigger] self@.at(c) == fire_partial_cell(start, fp, k as int, cfg, c)
                        && self@.timer_at(c) == fire_partial_timer(start, fp, k as int, cfg, c),
                is_dirty == start.state_changed(self@),
        {
            let pos = fire_positions[k];
            let ghost mid = self@;
            proof {
                assert(start.has(fp[k as int]) && start.at(fp[k as int]) == TreeType::Fire);
                lemma_handled_step(start, TreeType::Fire, fp, k as int, pos);
                assert(mid.at(pos) == fire_partial_cell(start, fp, k as int, cfg, pos));
            }
            let count = self.get_timer(&pos);
            if count == self.config.fire_exist_time {
                let lit = self.ignite_neighbors(&pos);
                if lit {
                    is_dirty = true;
                }
                let ghost mid2 = self@;
                assert(mid2.at(pos) == TreeType::Fire);
                self.set_timer(&pos, count - 1);
                proof {
                    if lit {
                        let c = lemma_neighbor_witness(mid, pos, TreeType::Tree);
                        assert(mid.at(c) == fire_partial_cell(start, fp, k as int, cfg, c));
                        assert(self@.at(c) != start.at(c));
                    } else {
                        assert forall|c: Pos| start.has(c) implies #[trigger] self@.at(c) == mid.at(c) by {
                            if c != pos && mid.at(c) == TreeType::Tree && mid.is_neighbor(pos, c) {
                                assert(mid.neighbor_in(pos, 0, TreeType::Tree) || mid.neighbor_in(pos, 1, TreeType::Tree)
                                    || mid.neighbor_in(pos, 2, TreeType::Tree) || mid.neighbor_in(pos, 3, TreeType::Tree));
                            }
                        }
                    }
                    if start.state_changed(mid) {
                        let c = choose|c: Pos| start.has(c) && #[trigger] mid.at(c) != start.at(c);
                        assert(mid.at(c) == fire_partial_cell(start, fp, k as int, cfg, c));
                        assert(self@.at(c) != start.at(c));
                    }
                    if start.state_changed(self@) && !lit {
                        let c = choose|c: Pos| start.has(c) && #[trigger] self@.at(c) != start.at(c);
                        assert(mid.at(c) != start.at(c));
                    }
                }
            } else if count == 0 {
                self.transition(&pos, TreeType::Empty, self.config.increase_min);
                is_dirty = true;
                assert(self@.at(pos) != start.at(pos));
            } else {
                self.set_timer(&pos, count - 1);
                proof {
                    if start.state_changed(mid) {
                        let c = choose|c: Pos| start.has(c) && #[trigger] mid.at(c) != start.at(c);
                        if c != pos {
                            assert(self@.at(c) != start.at(c));
                        }
                    }
                    if start.state_changed(self@) {
                        let c = choose|c: Pos| start.has(c) && #[trigger] self@.at(c) != start.at(c);
                        if c != pos {
                            assert(mid.at(c) != start.at(c));
                        }
                    }
                }
            }
            proof {
                assert forall|c: Pos| start.has(c) implies #[trigger] self@.at(c) == fire_partial_cell(
                    start,
                    fp,
                    k + 1,
                    cfg,
                    c,
                ) && self@.timer_at(c) == fire_partial_timer(start, fp, k + 1, cfg, c) by {
                    lemma_lit_step(start, fp, k as int, cfg, c);
                    if start.at(c) == TreeType::Fire {
                        lemma_handled_step(start, TreeType::Fire, fp, k as int, c);
                    }
                    lemma_is_neighbor(start, pos, c);
                    assert(mid.at(c) == fire_partial_cell(start, fp, k as int, cfg, c));
                }
            }
        }
        proof {
            assert forall|p: Pos| start.has(p) implies #[trigger] self@.at(p) == start.fire_cell_after(p, cfg)
                && self@.timer_at(p) == start.fire_timer_after(p, cfg) by {
                assert(self@.at(p) == fire_partial_cell(start, fp, n as int, cfg, p));
            }
        }
        is_dirty
    }

    /// The tree at `pos`, whose countdown ends this tick, takes the
    /// countdown `interval` and grows a tree with the countdown
    /// `new_interval` on the first empty neighbor met when the directions
    /// up, right, down, left are tried circularly from `start_offset % 4`.
    /// Reports whether it found one.
    pub fn spread_ripe_tree(&mut self, pos: &Pos, start_offset: u64, interval: i8, new_interval: i8) -> (r: bool)
        requires
            old(self).wf(),
            old(self)@.has(*pos),
            old(self)@.at(*pos) == TreeType::Tree,
            old(self).rules().increase_min <= interval <= old(self).rules().increase_max,
            old(self).rules().increase_min <= new_interval <= old(self).rules().increase_max,
        ensures
            final(self).wf(),
            final(self).same_setup(old(self)),
            (final(self)@, r) == old(self)@.spread_ripe(*pos, start_offset as int, interval, new_interval, old(self).rules()),
    {
        let ghost before = self@;
        self.set_timer(pos, interval);
        match self.first_neighbor_with_state(pos, TreeType::Empty, start_offset) {
            Some(q) => {
                proof {
                    lemma_first_neighbor(self@, *pos, TreeType::Empty, (start_offset % 4) as int);
                    assert((start_offset % 4) % 4 == start_offset % 4);
                }
                self.transition(&q, TreeType::Tree, new_interval);
                true
            },
            None => false,
        }
    }

    /// The growth sub-rule of a tick, over `tree_positions`, the trees
    /// listed at the tick's start: each tree counts down; when its
    /// countdown ends it takes a fresh one, whether or not it finds room to
    /// spread, and grows a new tree on an empty neighbor, looked for from a
    /// direction drawn at random. Reports whether any position changed
    /// state.
    #[verifier::rlimit(60)]
    pub fn update_increase_trees(&mut self, tree_positions: &Vec<Pos>) -> (r: bool)
        requires
            old(self).wf(),
            old(self)@.is_scan_of(TreeType::Tree, tree_positions@),
        ensures
            final(self).wf(),
            final(self).same_setup(old(self)),
            old(self)@.trees_grown_to(final(self)@, old(self).rules()),
            r == old(self)@.state_changed(final(self)@),
    {
        let ghost start = self@;
        let ghost cfg = self.config;
        let ghost tp = tree_positions@;
        let ghost mut src: Map<Pos, Pos> = Map::empty();
        let mut is_dirty = false;
        let n = tree_positions.len();
        proof {
            assert forall|c: Pos| #![trigger start.at(c)] start.has(c) && start.at(c) == TreeType::Tree implies !handled(tp, 0, c) by {
                let i = choose|i: int| 0 <= i < tp.len() && #[trigger] tp[i] == c;
                if i > 0 {
                    assert(scan_before(tp[0], tp[i]));
                }
            }
        }
        for k in 0..n
            invariant
                n == tp.len(),
                tp == tree_positions@,
                self.wf(),
                self.same_setup(old(self)),
                start == old(self)@,
                cfg == self.rules(),
                start.is_scan_of(TreeType::Tree, tp),
                start.valid(cfg),
                self@.same_shape(start),
                self@.clock == start.clock,
                forall|c: Pos| #![trigger self@.at(c)] start.has(c) ==> grow_partial(start, self@, tp, k as int, cfg, c),
                forall|q: Pos| #![trigger start.at(q)] start.ripe(q) && handled(tp, k as int, q) ==> start.spread_from(self@, q),
                start.grown_from(self@, src),
                forall|c: Pos| #![trigger self@.at(c)] start.new_tree(self@, c) ==> handled(tp, k as int, src[c]),
                is_dirty == start.state_changed(self@),
        {
            let pos = tree_positions[k];
            let ghost mid = self@;
            let ghost src0 = src;
            proof {
                assert(start.has(tp[k as int]) && start.at(tp[k as int]) == TreeType::Tree);
                lemma_handled_step(start, TreeType::Tree, tp, k as int, pos);
                assert(start.at(pos) == TreeType::Tree);
                assert(grow_partial(start, mid, tp, k as int, cfg, pos));
            }
            let count = self.get_timer(&pos) - 1;
            let ghost found: Option<Pos> = None;
            if count == 0 {
                let interval = self.get_increase_interval();
                let new_interval = self.get_increase_interval();
                let offset = random_range(0, 4);
                let grown = self.spread_ripe_tree(&pos, offset, interval, new_interval);
                proof {
                    let reset = mid.with_cell(pos.y as int, pos.x as int, TreeType::Tree, interval);
                    lemma_with_cell(mid, cfg, pos.y as int, pos.x as int, TreeType::Tree, interval);
                    lemma_first_neighbor(reset, pos, TreeType::Empty, offset as int);
                    if let Some(q) = reset.first_neighbor(pos, TreeType::Empty, offset as int) {
                        found = Some(q);
                        src = src.insert(q, pos);
                        lemma_transition_cells(reset, cfg, q, TreeType::Tree, new_interval);
                        assert(grow_partial(start, mid, tp, k as int, cfg, q));
                        assert(self@.at(q) != start.at(q));
                    } else {
                        if start.has_neighbor_in(pos, TreeType::Empty) {
                            let c = lemma_neighbor_witness(start, pos, TreeType::Empty);
                            assert(grow_partial(start, mid, tp, k as int, cfg, c));
                            if reset.at(c) == TreeType::Empty {
                                lemma_is_neighbor(start, pos, c);
                                assert(reset.has_neighbor_in(pos, TreeType::Empty));
                            }
                            assert(start.is_neighbor(pos, c) && start.at(c) == TreeType::Empty && self@.at(c) == TreeType::Tree);
                        }
                    }
                }
                if grown {
                    is_dirty = true;
                }
            } else {
                self.set_timer(&pos, count);
            }
            proof {
                assert forall|c: Pos| #![trigger self@.at(c)] start.has(c) implies grow_partial(start, self@, tp, k + 1, cfg, c) by {
                    assert(grow_partial(start, mid, tp, k as int, cfg, c));
                    if start.at(c) == TreeType::Tree {
                        lemma_handled_step(start, TreeType::Tree, tp, k as int, c);
                    }
                    if let Some(q) = found {
                        if c == q {
                            lemma_is_neighbor(start, pos, q);
                        }
                    }
                }
                assert forall|q: Pos| #![trigger start.at(q)] start.ripe(q) && handled(tp, k + 1, q) implies start.spread_from(self@, q) by {
                    lemma_handled_step(start, TreeType::Tree, tp, k as int, q);
                    if q != pos && start.has_neighbor_in(q, TreeType::Empty) {
                        let c = choose|c: Pos| start.is_neighbor(q, c) && start.at(c) == TreeType::Empty
                            && #[trigger] mid.at(c) == TreeType::Tree;
                        lemma_neighbor_witness(start, q, TreeType::Empty);
                        assert(self@.at(c) == TreeType::Tree);
                    }
                }
                assert forall|c: Pos| #![trigger self@.at(c)] start.new_tree(self@, c) implies src.contains_key(c)
                    && start.ripe(src[c]) && start.is_neighbor(src[c], c) && handled(tp, k + 1, src[c]) by {
                    assert(grow_partial(start, mid, tp, k as int, cfg, c));
                    if found == Some(c) {
                        lemma_is_neighbor(start, pos, c);
                    } else {
                        assert(mid.at(c) == TreeType::Tree);
                        assert(start.new_tree(mid, c));
                        assert(src[c] == src0[c]);
                        lemma_handled_step(start, TreeType::Tree, tp, k as int, src0[c]);
                    }
                }
                assert forall|c1: Pos, c2: Pos| #![trigger src[c1], src[c2]]
                    start.new_tree(self@, c1) && start.new_tree(self@, c2) && src[c1] == src[c2] implies c1 == c2 by {
                    assert(grow_partial(start, mid, tp, k as int, cfg, c1));
                    assert(grow_partial(start, mid, tp, k as int, cfg, c2));
                    if found != Some(c1) {
                        assert(mid.at(c1) == TreeType::Tree);
                        assert(start.new_tree(mid, c1));
                    }
                    if found != Some(c2) {
                        assert(mid.at(c2) == TreeType::Tree);
                        assert(start.new_tree(mid, c2));
                    }
                    if found != Some(c1) && found != Some(c2) {
                        assert(src0[c1] == src0[c2]);
                    }
                }
                if start.state_changed(mid) {
                    let c = choose|c: Pos| start.has(c) && #[trigger] mid.at(c) != start.at(c);
                    assert(grow_partial(start, mid, tp, k as int, cfg, c));
                    assert(self@.at(c) != start.at(c));
                }
                if start.state_changed(self@) && found is None {
                    let c = choose|c: Pos| start.has(c) && #[trigger] self@.at(c) != start.at(c);
                    assert(mid.at(c) != start.at(c));
                }
            }
        }
        proof {
            assert forall|p: Pos| #![trigger self@.at(p)] start.has(p) implies start.grown_cell(self@, cfg, p) by {
                assert(grow_partial(start, self@, tp, n as int, cfg, p));
            }
            assert(start.grown_from(self@, src));
        }
        is_dirty
    }

    /// The spawn sub-rule once its draws are made: the growth clock counts
    /// down, and when it runs out it is wound up again and, if the list
    /// `none_positions` is not empty, its entry `index` becomes a tree with
    /// the growth countdown `interval`. Reports whether a position was
    /// picked.
    pub fn grow_tree_by_draw(&mut self, none_positions: &Vec<Pos>, index: usize, interval: i8) -> (r: bool)
        requires
            old(self).wf(),
            forall|i: int| 0 <= i < none_positions@.len() ==> old(self)@.has(#[trigger] none_positions@[i]),
            none_positions@.len() > 0 ==> index < none_positions@.len(),
            old(self).rules().increase_min <= interval <= old(self).rules().increase_max,
        ensures
            final(self).wf(),
            final(self).same_setup(old(self)),
            old(self)@.clock > 1 ==> !r && final(self)@ == old(self)@.with_clock((old(self)@.clock - 1) as u8),
            old(self)@.clock <= 1 ==> r == (none_positions@.len() > 0),
            old(self)@.clock <= 1 && r ==> final(self)@ == old(self)@.with_clock(
                old(self).rules().grow_interval,
            ).transition(none_positions@[index as int], TreeType::Tree, interval, old(self).rules()),
            old(self)@.clock <= 1 && !r ==> final(self)@ == old(self)@.with_clock(old(self).rules().grow_interval),
    {
        let ghost cfg = self.config;
        let ghost before = self@;
        self.to_grow_count = self.to_grow_count - 1;
        if self.to_grow_count > 0 {
            proof {
                assert(self@ == before.with_clock(self.to_grow_count));
                lemma_with_clock(before, cfg, self.to_grow_count);
            }
            return false;
        }
        self.to_grow_count = self.config.grow_interval;
        proof {
            assert(self@ == before.with_clock(cfg.grow_interval));
            lemma_with_clock(before, cfg, cfg.grow_interval);
        }
        if none_positions.len() == 0 {
            return false;
        }
        let pos = none_positions[index];
        self.transition(&pos, TreeType::Tree, interval);
        true
    }

    /// The spawn sub-rule of a tick, over `none_positions`, the empty
    /// positions listed at the tick's start (`start`): the growth clock
    /// counts down, and when it runs out it is wound up again and a tree
    /// appears on one listed position drawn at random. Reports whether a
    /// position was picked.
    fn update_grow_trees(&mut self, none_positions: &Vec<Pos>, start: Ghost<Forest>) -> (r: bool)
        requires
            old(self).wf(),
            start@.is_scan_of(TreeType::Empty, none_positions@),
            start@.same_shape(old(self)@),
        ensures
            final(self).wf(),
            final(self).same_setup(old(self)),
            start@.spawn_to(old(self)@, final(self)@, old(self).rules(), r),
    {
        let ghost cfg = self.config;
        let index = if none_positions.len() > 0 {
            random_range(0, none_positions.len() as u64) as usize
        } else {
            0
        };
        let interval = self.get_increase_interval();
        proof {
            assert forall|i: int| 0 <= i < none_positions@.len() implies old(self)@.has(#[trigger] none_positions@[i]) by {
                assert(start@.has(none_positions@[i]));
            }
        }
        let r = self.grow_tree_by_draw(none_positions, index, interval);
        proof {
            if old(self)@.clock <= 1 {
                if start@.some_cell_in(TreeType::Empty) {
                    let p = choose|p: Pos| start@.has(p) && #[trigger] start@.at(p) == TreeType::Empty;
                }
                if r {
                    let pos = none_positions@[index as int];
                    assert(start@.has(pos) && start@.at(pos) == TreeType::Empty);
                    assert(self@ == #[trigger] old(self)@.with_clock(cfg.grow_interval).transition(pos, TreeType::Tree, interval, cfg));
                }
            }
        }
        r
    }

    /// The ignition sub-rule once its draws are made: when `draw`, a number
    /// below `PPM_SCALE`, falls under the rules' chance and the list
    /// `tree_positions` is not empty, its entry `index` catches fire.
    /// Reports whether a position was picked.
    pub fn ignite_by_draw(&mut self, tree_positions: &Vec<Pos>, draw: u64, index: usize) -> (r: bool)
        requires
            old(self).wf(),
            forall|i: int| 0 <= i < tree_positions@.len() ==> old(self)@.has(#[trigger] tree_positions@[i]),
            tree_positions@.len() > 0 ==> index < tree_positions@.len(),
        ensures
            final(self).wf(),
            final(self).same_setup(old(self)),
            r == (draw < old(self).rules().take_fire_ppm && tree_positions@.len() > 0),
            r ==> final(self)@ == old(self)@.transition(
                tree_positions@[index as int],
                TreeType::Fire,
                old(self).rules().increase_min,
                old(self).rules(),
            ),
            !r ==> final(self)@ == old(self)@,
    {
        if draw >= self.config.take_fire_ppm as u64 || tree_positions.len() == 0 {
            return false;
        }
        let pos = tree_positions[index];
        self.transition(&pos, TreeType::Fire, self.config.increase_min);
        true
    }

    /// The ignition sub-rule of a tick, over `tree_positions`, the trees
    /// listed at the tick's start (`start`): with the chance the rules
    /// give, one listed position drawn at random catches fire. Reports
    /// whether a position was picked.
    fn take_fire_at_random(&mut self, tree_positions: &Vec<Pos>, start: Ghost<Forest>) -> (r: bool)
        requires
            old(self).wf(),
            start@.is_scan_of(TreeType::Tree, tree_positions@),
            start@.same_shape(old(self)@),
        ensures
            final(self).wf(),
            final(self).same_setup(old(self)),
            start@.ignition_to(old(self)@, final(self)@, old(self).rules(), r),
    {
        let ghost cfg = self.config;
        let draw = random_range(0, PPM_SCALE as u64);
        let index = if tree_positions.len() > 0 {
            random_range(0, tree_positions.len() as u64) as usize
        } else {
            0
        };
        proof {
            assert forall|i: int| 0 <= i < tree_positions@.len() implies old(self)@.has(#[trigger] tree_positions@[i]) by {
                assert(start@.has(tree_positions@[i]));
            }
        }
        let r = self.ignite_by_draw(tree_positions, draw, index);
        proof {
            if start@.some_cell_in(TreeType::Tree) {
                let p = choose|p: Pos| start@.has(p) && #[trigger] start@.at(p) == TreeType::Tree;
            }
            if r {
                let pos = tree_positions@[index as int];
                assert(start@.has(pos) && start@.at(pos) == TreeType::Tree);
                assert(self@ == #[trigger] old(self)@.transition(pos, TreeType::Fire, cfg.increase_min, cfg));
            }
        }
        r
    }

    /// One tick: the growth, spawn, fire and ignition sub-rules in this
    /// order, all working from one scan of the grid taken at the start.
    /// When the tick reports a change the grid is drawn on the surface.
    pub fn update(&mut self) -> (r: bool)
        requires
            old(self).wf(),
        ensures
            final(self).wf(),
            final(self).rules() == old(self).rules(),
            old(self)@.tick_to(final(self)@, old(self).rules(), r),
    {
        let ghost start = self@;
        let ghost cfg = self.config;
        let all_positions = self.search_all_positions();
        let is_increase = self.update_increase_trees(&all_positions.tree);
        let ghost s1 = self@;
        let is_grown = self.update_grow_trees(&all_positions.empty, Ghost(start));
        let ghost s2 = self@;
        proof {
            assert forall|p: Pos| start.has(p) implies (start.at(p) == TreeType::Fire) == (#[trigger] s2.at(p)
                == TreeType::Fire) by {
                assert(start.grown_cell(s1, cfg, p));
                if s1.clock <= 1 && is_grown {
                    let (q, iv) = choose|q: Pos, iv: i8| start.has(q) && start.at(q) == TreeType::Empty
                        && cfg.increase_min <= iv <= cfg.increase_max && s2 == #[trigger] s1.with_clock(
                        cfg.grow_interval,
                    ).transition(q, TreeType::Tree, iv, cfg);
                    lemma_with_clock(s1, cfg, cfg.grow_interval);
                    lemma_transition_cells(s1.with_clock(cfg.grow_interval), cfg, q, TreeType::Tree, iv);
                    assert(start.grown_cell(s1, cfg, q));
                }
            }
            lemma_scan_transfer(start, s2, TreeType::Fire, all_positions.fire@);
        }
        let is_spread = self.update_fire_spread(&all_positions.fire);
        let ghost s3 = self@;
        let is_fire = self.take_fire_at_random(&all_positions.tree, Ghost(start));
        let changed = is_increase || is_grown || is_spread || is_fire;
        let ghost new = self@;
        if changed {
            self.tree_drawable.draw_tree(&self.trees);
        }
        proof {
            assert(self@ == new);
            assert(start.tick_via(s1, s2, s3, new, cfg, (is_increase, is_grown, is_spread, is_fire)));
        }
        changed
    }
}

} // verus!

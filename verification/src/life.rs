//! The simulation engine: the sparse set of live cells and the pure
//! generation-transition function for the B3/S23 rule.

use crate::lexicon::Cell;
use vstd::prelude::*;
use vstd::seq_lib::*;

verus! {

/// True when `a` comes strictly before `b` in row-major order.
pub open spec fn cell_below(a: Cell, b: Cell) -> bool {
    a.y < b.y || (a.y == b.y && a.x < b.x)
}

/// The set of currently alive cells, kept as a strictly sorted sequence of
/// coordinates: sparse, so the lattice needs no artificial bound, with
/// membership decided by binary search.
#[derive(Debug)]
pub struct CellSet {
    cells: Vec<Cell>,
}

impl View for CellSet {
    type V = Set<Cell>;

    closed spec fn view(&self) -> Set<Cell> {
        self.cells@.to_set()
    }
}

impl CellSet {
    /// The stored sequence is strictly increasing, hence duplicate-free.
    pub closed spec fn wf(&self) -> bool {
        forall|i: int, j: int|
            0 <= i < j < self.cells@.len() ==> #[trigger] cell_below(
                self.cells@[i],
                self.cells@[j],
            )
    }

    /// The empty set: every cell is dead.
    pub fn new() -> (r: CellSet)
        ensures
            r.wf(),
            r@ == Set::<Cell>::empty(),
    {
        let r = CellSet { cells: Vec::new() };
        proof {
            assert(r@ =~= Set::<Cell>::empty());
        }
        r
    }

    /// How many cells are alive.
    pub fn len(&self) -> (n: usize)
        requires
            self.wf(),
        ensures
            n == self@.len(),
    {
        proof {
            self.lemma_view_len();
        }
        self.cells.len()
    }

    proof fn lemma_view_len(&self)
        requires
            self.wf(),
        ensures
            self@.len() == self.cells@.len(),
    {
        self.lemma_no_duplicates();
        self.cells@.unique_seq_to_set();
    }

    /// The live cells as a sorted, duplicate-free list of coordinates.
    pub fn cells(&self) -> (r: Vec<Cell>)
        requires
            self.wf(),
        ensures
            r@.to_set() == self@,
            r@.no_duplicates(),
            r@.len() == self@.len(),
            forall|i: int, j: int| 0 <= i < j < r@.len() ==> #[trigger] cell_below(r@[i], r@[j]),
    {
        proof {
            self.lemma_no_duplicates();
            self.lemma_view_len();
        }
        let copy = copy_cell_set(self);
        copy.cells
    }

    proof fn lemma_no_duplicates(&self)
        requires
            self.wf(),
        ensures
            self.cells@.no_duplicates(),
    {
        assert forall|i: int, j: int|
            0 <= i < self.cells@.len() && 0 <= j < self.cells@.len() && i != j
            implies self.cells@[i] != self.cells@[j] by {
            if i < j {
                assert(cell_below(self.cells@[i], self.cells@[j]));
            } else {
                assert(cell_below(self.cells@[j], self.cells@[i]));
            }
        }
    }

    /// Whether the two sets hold exactly the same live cells. The sorted
    /// representation is canonical, so one pass over both lists decides set
    /// equality.
    pub fn equals(&self, other: &CellSet) -> (r: bool)
        requires
            self.wf(),
            other.wf(),
        ensures
            r == (self@ == other@),
    {
        let n = self.cells.len();
        if n != other.cells.len() {
            proof {
                self.lemma_view_len();
                other.lemma_view_len();
                assert(self@.len() != other@.len());
            }
            return false;
        }
        let mut i: usize = 0;
        while i < n
            invariant
                self.wf(),
                other.wf(),
                n == self.cells@.len(),
                n == other.cells@.len(),
                0 <= i <= n,
                forall|j: int| 0 <= j < i ==> self.cells@[j] == other.cells@[j],
            decreases n - i,
        {
            let a = self.cells[i];
            let b = other.cells[i];
            if a.x != b.x || a.y != b.y {
                proof {
                    lemma_first_difference_separates(self, other, i as int);
                }
                return false;
            }
            i += 1;
        }
        proof {
            assert(self.cells@ =~= other.cells@);
            assert(self@ =~= other@);
        }
        true
    }

    /// Membership test by binary search over the sorted coordinates.
    pub fn contains(&self, cell: Cell) -> (r: bool)
        requires
            self.wf(),
        ensures
            r == self@.contains(cell),
    {
        let mut lo: usize = 0;
        let mut hi: usize = self.cells.len();
        while lo < hi
            invariant
                self.wf(),
                0 <= lo <= hi <= self.cells@.len(),
                forall|i: int| 0 <= i < lo ==> cell_below(#[trigger] self.cells@[i], cell),
                forall|i: int|
                    hi <= i < self.cells@.len() ==> cell_below(cell, #[trigger] self.cells@[i]),
            decreases hi - lo,
        {
            let mid = lo + (hi - lo) / 2;
            let c = self.cells[mid];
            if c.y < cell.y || (c.y == cell.y && c.x < cell.x) {
                proof {
                    assert forall|k: int| 0 <= k < mid + 1 implies cell_below(
                        #[trigger] self.cells@[k],
                        cell,
                    ) by {
                        if k < mid {
                            assert(cell_below(self.cells@[k], self.cells@[mid as int]));
                        }
                    }
                }
                lo = mid + 1;
            } else if cell.y < c.y || (cell.y == c.y && cell.x < c.x) {
                proof {
                    assert forall|k: int| mid <= k < self.cells@.len() implies cell_below(
                        cell,
                        #[trigger] self.cells@[k],
                    ) by {
                        if k > mid {
                            assert(cell_below(self.cells@[mid as int], self.cells@[k]));
                        }
                    }
                }
                hi = mid;
            } else {
                assert(self.cells@.contains(c));
                return true;
            }
        }
        proof {
            if self@.contains(cell) {
                let i = choose|i: int| 0 <= i < self.cells@.len() && self.cells@[i] == cell;
                if i < lo {
                    assert(cell_below(self.cells@[i], cell));
                } else {
                    assert(cell_below(cell, self.cells@[i]));
                }
            }
        }
        false
    }

    /// Adds `cell`, keeping the coordinates sorted; a no-op when it is
    /// already alive.
    fn insert(&mut self, cell: Cell)
        requires
            old(self).wf(),
        ensures
            final(self).wf(),
            final(self)@ == old(self)@.insert(cell),
    {
        let n = self.cells.len();
        let mut i: usize = 0;
        while i < n
            invariant_except_break
                0 <= i <= n,
            invariant
                n == self.cells@.len(),
                self == old(self),
                forall|j: int| 0 <= j < i ==> cell_below(#[trigger] self.cells@[j], cell),
            ensures
                0 <= i <= n,
                i < n ==> !cell_below(self.cells@[i as int], cell),
            decreases n - i,
        {
            let c = self.cells[i];
            if c.y < cell.y || (c.y == cell.y && c.x < cell.x) {
                i += 1;
            } else {
                break;
            }
        }
        if i < n {
            let c = self.cells[i];
            if c.x == cell.x && c.y == cell.y {
                proof {
                    assert(self.cells@.contains(cell));
                    assert(self@ =~= old(self)@.insert(cell));
                }
                return;
            }
            proof {
                assert(cell_below(cell, self.cells@[i as int]));
            }
        }
        self.cells.insert(i, cell);
        proof {
            let s0 = old(self).cells@;
            let s1 = self.cells@;
            assert(s1 == s0.insert(i as int, cell));
            s0.insert_ensures(i as int, cell);
            assert forall|p: int, q: int| 0 <= p < q < s1.len() implies cell_below(s1[p], s1[q])
                by {
                if q < i {
                    assert(s1[p] == s0[p] && s1[q] == s0[q]);
                    assert(cell_below(s0[p], s0[q]));
                } else if p > i {
                    assert(s1[p] == s0[p - 1] && s1[q] == s0[q - 1]);
                    assert(cell_below(s0[p - 1], s0[q - 1]));
                } else if p < i && q == i {
                    assert(s1[p] == s0[p] && s1[q] == cell);
                    assert(cell_below(s0[p], cell));
                } else if p < i && q > i {
                    assert(s1[p] == s0[p] && s1[q] == s0[q - 1]);
                    assert(cell_below(s0[p], s0[q - 1]));
                } else {
                    assert(p == i && q > i);
                    assert(s1[p] == cell && s1[q] == s0[q - 1]);
                    assert(cell_below(cell, s0[i as int]));
                    if q - 1 > i {
                        assert(cell_below(s0[i as int], s0[q - 1]));
                    }
                }
            }
            assert forall|c: Cell| s1.contains(c) <==> (s0.contains(c) || c == cell) by {
                if s1.contains(c) {
                    let k = choose|k: int| 0 <= k < s1.len() && s1[k] == c;
                    if k < i {
                        assert(s0[k] == c);
                    } else if k > i {
                        assert(s0[k - 1] == c);
                    }
                }
                if s0.contains(c) {
                    let k = choose|k: int| 0 <= k < s0.len() && s0[k] == c;
                    if k < i {
                        assert(s1[k] == c);
                    } else {
                        assert(s1[k + 1] == c);
                    }
                }
                if c == cell {
                    assert(s1[i as int] == c);
                }
            }
            assert(self@ =~= old(self)@.insert(cell));
        }
    }

    /// Removes `cell`, keeping the coordinates sorted; a no-op when it is
    /// already dead.
    fn remove_cell(&mut self, cell: Cell)
        requires
            old(self).wf(),
        ensures
            final(self).wf(),
            final(self)@ == old(self)@.remove(cell),
    {
        let n = self.cells.len();
        let mut i: usize = 0;
        while i < n
            invariant
                n == self.cells@.len(),
                0 <= i <= n,
                self == old(self),
                old(self).wf(),
                forall|j: int| 0 <= j < i ==> #[trigger] self.cells@[j] != cell,
            decreases n - i,
        {
            let c = self.cells[i];
            if c.x == cell.x && c.y == cell.y {
                self.cells.remove(i);
                proof {
                    let s0 = old(self).cells@;
                    let s1 = self.cells@;
                    assert(s1 == s0.remove(i as int));
                    s0.remove_ensures(i as int);
                    assert(s0[i as int] == cell);
                    assert forall|p: int, q: int| 0 <= p < q < s1.len() implies cell_below(
                        s1[p],
                        s1[q],
                    ) by {
                        if q < i {
                            assert(s1[p] == s0[p] && s1[q] == s0[q]);
                            assert(cell_below(s0[p], s0[q]));
                        } else if p >= i {
                            assert(s1[p] == s0[p + 1] && s1[q] == s0[q + 1]);
                            assert(cell_below(s0[p + 1], s0[q + 1]));
                        } else {
                            assert(s1[p] == s0[p] && s1[q] == s0[q + 1]);
                            assert(cell_below(s0[p], s0[q + 1]));
                        }
                    }
                    assert forall|c2: Cell| s1.contains(c2) <==> (s0.contains(c2) && c2 != cell)
                        by {
                        if s1.contains(c2) {
                            let k = choose|k: int| 0 <= k < s1.len() && s1[k] == c2;
                            if k < i {
                                assert(s0[k] == c2);
                                assert(cell_below(s0[k], s0[i as int]));
                            } else {
                                assert(s0[k + 1] == c2);
                                assert(cell_below(s0[i as int], s0[k + 1]));
                            }
                        }
                        if s0.contains(c2) && c2 != cell {
                            let k = choose|k: int| 0 <= k < s0.len() && s0[k] == c2;
                            if k < i {
                                assert(s1[k] == c2);
                            } else if k > i {
                                assert(s1[k - 1] == c2);
                            } else {
                                assert(s0[i as int] == cell);
                            }
                        }
                    }
                    assert(self@ =~= old(self)@.remove(cell));
                }
                return;
            }
            i += 1;
        }
        proof {
            assert(!self.cells@.contains(cell));
            assert(self@ =~= old(self)@.remove(cell));
        }
    }
}

/// Returns `cells` with `cell` alive: the union of the set with that one
/// cell. Idempotent; the input set is left untouched.
pub fn make_cell_alive(cells: &CellSet, cell: Cell) -> (r: CellSet)
    requires
        cells.wf(),
    ensures
        r.wf(),
        r@ == cells@.insert(cell),
{
    let mut r = copy_cell_set(cells);
    r.insert(cell);
    r
}

/// Returns `cells` with `cell` dead: the set minus that one cell.
/// Idempotent; the input set is left untouched.
pub fn make_cell_dead(cells: &CellSet, cell: Cell) -> (r: CellSet)
    requires
        cells.wf(),
    ensures
        r.wf(),
        r@ == cells@.remove(cell),
{
    let mut r = copy_cell_set(cells);
    r.remove_cell(cell);
    r
}

/// Membership: absence means dead, presence means alive.
pub fn cell_is_alive(cells: &CellSet, cell: Cell) -> (r: bool)
    requires
        cells.wf(),
    ensures
        r == cells@.contains(cell),
{
    cells.contains(cell)
}

/// True when some live cell of `s` sits at coordinates `(x, y)`. Stated over
/// unbounded integers: positions outside the 32-bit lattice hold no cell.
pub open spec fn live_at(s: Set<Cell>, x: int, y: int) -> bool {
    exists|c: Cell| s.contains(c) && c.x == x && c.y == y
}

/// One when a live cell sits at `(x, y)`, zero otherwise.
pub open spec fn live_bit(s: Set<Cell>, x: int, y: int) -> int {
    if live_at(s, x, y) {
        1
    } else {
        0
    }
}

/// How many of the eight Moore neighbours of `cell` are alive under `s`.
pub open spec fn neighbor_count(s: Set<Cell>, cell: Cell) -> int {
    live_bit(s, cell.x - 1, cell.y - 1) + live_bit(s, cell.x as int, cell.y - 1) + live_bit(
        s,
        cell.x + 1,
        cell.y - 1,
    ) + live_bit(s, cell.x - 1, cell.y as int) + live_bit(s, cell.x + 1, cell.y as int) + live_bit(
        s,
        cell.x - 1,
        cell.y + 1,
    ) + live_bit(s, cell.x as int, cell.y + 1) + live_bit(s, cell.x + 1, cell.y + 1)
}

/// The B3/S23 rule: a live cell survives with two or three live neighbours;
/// a dead cell is born with exactly three.
pub open spec fn next_alive(s: Set<Cell>, cell: Cell) -> bool {
    if s.contains(cell) {
        neighbor_count(s, cell) == 2 || neighbor_count(s, cell) == 3
    } else {
        neighbor_count(s, cell) == 3
    }
}

/// The generation transition: exactly the cells the rule keeps or bears.
pub open spec fn tick_spec(s: Set<Cell>) -> Set<Cell> {
    Set::new(|c: Cell| next_alive(s, c))
}

/// True when `b` lies within Chebyshev distance one of `a`: `b` is `a`
/// itself or one of its eight Moore neighbours.
pub open spec fn near(a: Cell, b: Cell) -> bool {
    -1 <= b.x - a.x <= 1 && -1 <= b.y - a.y <= 1
}

/// Whether a live cell of `cells` sits at the (possibly unrepresentable)
/// position one step of `(dx, dy)` away from `cell`.
fn neighbor_live(cells: &CellSet, cell: Cell, dx: i32, dy: i32) -> (r: bool)
    requires
        cells.wf(),
        -1 <= dx <= 1,
        -1 <= dy <= 1,
    ensures
        r == live_at(cells@, cell.x + dx, cell.y + dy),
{
    let in_range_x = if dx > 0 {
        cell.x <= i32::MAX - dx
    } else {
        cell.x >= i32::MIN - dx
    };
    let in_range_y = if dy > 0 {
        cell.y <= i32::MAX - dy
    } else {
        cell.y >= i32::MIN - dy
    };
    if in_range_x && in_range_y {
        let probe = Cell { x: cell.x + dx, y: cell.y + dy };
        let r = cells.contains(probe);
        proof {
            if r {
                assert(cells@.contains(probe) && probe.x == cell.x + dx && probe.y == cell.y
                    + dy);
            }
            if live_at(cells@, cell.x + dx, cell.y + dy) {
                let w = choose|c: Cell|
                    cells@.contains(c) && c.x == cell.x + dx && c.y == cell.y + dy;
                assert(w == probe);
            }
        }
        r
    } else {
        proof {
            if live_at(cells@, cell.x + dx, cell.y + dy) {
                let w = choose|c: Cell|
                    cells@.contains(c) && c.x == cell.x + dx && c.y == cell.y + dy;
                assert(i32::MIN <= w.x <= i32::MAX && i32::MIN <= w.y <= i32::MAX);
            }
        }
        false
    }
}

/// How many of the eight Moore neighbours of `cell` are alive.
fn count_alive_neighbors(cells: &CellSet, cell: Cell) -> (n: u32)
    requires
        cells.wf(),
    ensures
        n == neighbor_count(cells@, cell),
{
    let mut n: u32 = 0;
    if neighbor_live(cells, cell, -1, -1) {
        n += 1;
    }
    if neighbor_live(cells, cell, 0, -1) {
        n += 1;
    }
    if neighbor_live(cells, cell, 1, -1) {
        n += 1;
    }
    if neighbor_live(cells, cell, -1, 0) {
        n += 1;
    }
    if neighbor_live(cells, cell, 1, 0) {
        n += 1;
    }
    if neighbor_live(cells, cell, -1, 1) {
        n += 1;
    }
    if neighbor_live(cells, cell, 0, 1) {
        n += 1;
    }
    if neighbor_live(cells, cell, 1, 1) {
        n += 1;
    }
    n
}

/// Inserts the cell one step of `(dx, dy)` away from `base`, when that
/// position exists on the 32-bit lattice.
fn insert_shifted(set: &mut CellSet, base: Cell, dx: i32, dy: i32)
    requires
        old(set).wf(),
        -1 <= dx <= 1,
        -1 <= dy <= 1,
    ensures
        final (set).wf(),
        forall|nc: Cell|
            final (set)@.contains(nc) <==> (old(set)@.contains(nc) || (nc.x == base.x + dx
                && nc.y == base.y + dy)),
{
    let in_range_x = if dx > 0 {
        base.x <= i32::MAX - dx
    } else {
        base.x >= i32::MIN - dx
    };
    let in_range_y = if dy > 0 {
        base.y <= i32::MAX - dy
    } else {
        base.y >= i32::MIN - dy
    };
    if in_range_x && in_range_y {
        let shifted = Cell { x: base.x + dx, y: base.y + dy };
        set.insert(shifted);
        proof {
            assert forall|nc: Cell|
                set@.contains(nc) <==> (old(set)@.contains(nc) || (nc.x == base.x + dx && nc.y
                    == base.y + dy)) by {
                if nc.x == base.x + dx && nc.y == base.y + dy {
                    assert(nc == shifted);
                }
            }
        }
    } else {
        proof {
            assert forall|nc: Cell|
                set@.contains(nc) <==> (old(set)@.contains(nc) || (nc.x == base.x + dx && nc.y
                    == base.y + dy)) by {
                assert(i32::MIN <= nc.x <= i32::MAX && i32::MIN <= nc.y <= i32::MAX);
            }
        }
    }
}

/// Inserts `base` and every existing lattice position within one step of it:
/// afterwards the set holds exactly the old cells and those near `base`.
fn insert_near(set: &mut CellSet, base: Cell)
    requires
        old(set).wf(),
    ensures
        final (set).wf(),
        forall|nc: Cell| final (set)@.contains(nc) <==> (old(set)@.contains(nc) || near(base, nc)),
{
    insert_shifted(set, base, -1, -1);
    insert_shifted(set, base, 0, -1);
    insert_shifted(set, base, 1, -1);
    insert_shifted(set, base, -1, 0);
    insert_shifted(set, base, 0, 0);
    insert_shifted(set, base, 1, 0);
    insert_shifted(set, base, -1, 1);
    insert_shifted(set, base, 0, 1);
    insert_shifted(set, base, 1, 1);
    proof {
        assert forall|nc: Cell|
            set@.contains(nc) <==> (old(set)@.contains(nc) || near(base, nc)) by {
            if near(base, nc) {
                let dx = nc.x - base.x;
                let dy = nc.y - base.y;
                assert(nc.x == base.x + dx && nc.y == base.y + dy);
            }
        }
    }
}

/// The pure generation transition under rule B3/S23. The result is a fresh
/// set holding exactly the cells alive in the next generation; the input is
/// untouched, so each generation stays an independent snapshot.
pub fn tick(cells: &CellSet) -> (r: CellSet)
    requires
        cells.wf(),
    ensures
        r.wf(),
        r@ == tick_spec(cells@),
{
    let n = cells.cells.len();
    let mut candidates = CellSet::new();
    let mut i: usize = 0;
    while i < n
        invariant
            cells.wf(),
            n == cells.cells@.len(),
            0 <= i <= n,
            candidates.wf(),
            forall|nc: Cell|
                #[trigger] candidates@.contains(nc) <==> exists|j: int|
                    0 <= j < i && near(cells.cells@[j], nc),
        decreases n - i,
    {
        let base = cells.cells[i];
        insert_near(&mut candidates, base);
        proof {
            assert forall|nc: Cell|
                candidates@.contains(nc) <==> exists|j: int|
                    0 <= j < i + 1 && near(cells.cells@[j], nc) by {
                if candidates@.contains(nc) {
                    if near(base, nc) {
                        assert(near(cells.cells@[i as int], nc));
                    }
                }
                if exists|j: int| 0 <= j < i + 1 && near(cells.cells@[j], nc) {
                    let j = choose|j: int| 0 <= j < i + 1 && near(cells.cells@[j], nc);
                    if j == i {
                        assert(near(base, nc));
                    }
                }
            }
        }
        i += 1;
    }
    let m = candidates.cells.len();
    let mut r = CellSet::new();
    let mut k: usize = 0;
    while k < m
        invariant
            cells.wf(),
            candidates.wf(),
            m == candidates.cells@.len(),
            0 <= k <= m,
            r.wf(),
            forall|c: Cell|
                #[trigger] r@.contains(c) <==> ((exists|j: int|
                    0 <= j < k && candidates.cells@[j] == c) && next_alive(cells@, c)),
        decreases m - k,
    {
        let c = candidates.cells[k];
        let count = count_alive_neighbors(cells, c);
        let alive = cells.contains(c);
        let keep = if alive {
            count == 2 || count == 3
        } else {
            count == 3
        };
        if keep {
            r.insert(c);
        }
        proof {
            assert forall|c2: Cell|
                r@.contains(c2) <==> ((exists|j: int|
                    0 <= j < k + 1 && candidates.cells@[j] == c2) && next_alive(cells@, c2)) by {
                if r@.contains(c2) {
                    if c2 == c {
                        assert(candidates.cells@[k as int] == c2);
                    }
                }
                if (exists|j: int| 0 <= j < k + 1 && candidates.cells@[j] == c2) && next_alive(
                    cells@,
                    c2,
                ) {
                    let j = choose|j: int| 0 <= j < k + 1 && candidates.cells@[j] == c2;
                    if j == k {
                        assert(c2 == c && keep);
                    }
                }
            }
        }
        k += 1;
    }
    proof {
        assert forall|c: Cell| r@.contains(c) <==> tick_spec(cells@).contains(c) by {
            if r@.contains(c) {
                assert(next_alive(cells@, c));
            }
            if tick_spec(cells@).contains(c) {
                lemma_next_alive_is_near_live(cells@, c);
                let l = choose|l: Cell| cells@.contains(l) && near(l, c);
                let j = choose|j: int| 0 <= j < cells.cells@.len() && cells.cells@[j] == l;
                assert(near(cells.cells@[j], c));
                assert(candidates@.contains(c));
                let k2 = choose|k2: int|
                    0 <= k2 < candidates.cells@.len() && candidates.cells@[k2] == c;
                assert(r@.contains(c));
            }
        }
        assert(r@ =~= tick_spec(cells@));
    }
    r
}

/// A cell alive in the next generation is itself alive or adjacent to a live
/// cell: a dead cell needs three live neighbours to be born.
proof fn lemma_next_alive_is_near_live(s: Set<Cell>, c: Cell)
    requires
        next_alive(s, c),
    ensures
        exists|l: Cell| s.contains(l) && near(l, c),
{
    if s.contains(c) {
        assert(s.contains(c) && near(c, c));
    } else {
        assert(neighbor_count(s, c) == 3);
        if live_at(s, c.x - 1, c.y - 1) {
            let l = choose|l: Cell| s.contains(l) && l.x == c.x - 1 && l.y == c.y - 1;
            assert(s.contains(l) && near(l, c));
        } else if live_at(s, c.x as int, c.y - 1) {
            let l = choose|l: Cell| s.contains(l) && l.x == c.x && l.y == c.y - 1;
            assert(s.contains(l) && near(l, c));
        } else if live_at(s, c.x + 1, c.y - 1) {
            let l = choose|l: Cell| s.contains(l) && l.x == c.x + 1 && l.y == c.y - 1;
            assert(s.contains(l) && near(l, c));
        } else if live_at(s, c.x - 1, c.y as int) {
            let l = choose|l: Cell| s.contains(l) && l.x == c.x - 1 && l.y == c.y;
            assert(s.contains(l) && near(l, c));
        } else if live_at(s, c.x + 1, c.y as int) {
            let l = choose|l: Cell| s.contains(l) && l.x == c.x + 1 && l.y == c.y;
            assert(s.contains(l) && near(l, c));
        } else if live_at(s, c.x - 1, c.y + 1) {
            let l = choose|l: Cell| s.contains(l) && l.x == c.x - 1 && l.y == c.y + 1;
            assert(s.contains(l) && near(l, c));
        } else if live_at(s, c.x as int, c.y + 1) {
            let l = choose|l: Cell| s.contains(l) && l.x == c.x && l.y == c.y + 1;
            assert(s.contains(l) && near(l, c));
        } else if live_at(s, c.x + 1, c.y + 1) {
            let l = choose|l: Cell| s.contains(l) && l.x == c.x + 1 && l.y == c.y + 1;
            assert(s.contains(l) && near(l, c));
        } else {
            assert(neighbor_count(s, c) == 0);
        }
    }
}

/// Two well-formed sets whose sorted lists first differ at index `i` differ
/// as sets: the smaller of the two differing cells is absent from the other
/// set.
proof fn lemma_first_difference_separates(a: &CellSet, b: &CellSet, i: int)
    requires
        a.wf(),
        b.wf(),
        a.cells@.len() == b.cells@.len(),
        0 <= i < a.cells@.len(),
        forall|j: int| 0 <= j < i ==> a.cells@[j] == b.cells@[j],
        a.cells@[i] != b.cells@[i],
    ensures
        a@ != b@,
{
    let x = a.cells@[i];
    let y = b.cells@[i];
    if cell_below(x, y) {
        assert(a.cells@.contains(x));
        if b@.contains(x) {
            let j = choose|j: int| 0 <= j < b.cells@.len() && b.cells@[j] == x;
            if j < i {
                assert(a.cells@[j] == x);
                assert(cell_below(a.cells@[j], a.cells@[i]));
            } else if j > i {
                assert(cell_below(b.cells@[i], b.cells@[j]));
            }
            assert(false);
        }
        assert(a@.contains(x) && !b@.contains(x));
    } else if cell_below(y, x) {
        assert(b.cells@.contains(y));
        if a@.contains(y) {
            let j = choose|j: int| 0 <= j < a.cells@.len() && a.cells@[j] == y;
            if j < i {
                assert(b.cells@[j] == y);
                assert(cell_below(b.cells@[j], b.cells@[i]));
            } else if j > i {
                assert(cell_below(a.cells@[i], a.cells@[j]));
            }
            assert(false);
        }
        assert(b@.contains(y) && !a@.contains(y));
    } else {
        assert(x == y);
    }
}

/// Law: the empty set is a fixed point of the generation transition — with
/// nothing alive, nothing survives and nothing is born.
pub proof fn lemma_tick_empty_is_empty()
    ensures
        tick_spec(Set::<Cell>::empty()) == Set::<Cell>::empty(),
{
    assert forall|c: Cell| !(#[trigger] tick_spec(Set::<Cell>::empty()).contains(c)) by {
        assert(neighbor_count(Set::<Cell>::empty(), c) == 0);
    }
    assert(tick_spec(Set::<Cell>::empty()) =~= Set::<Cell>::empty());
}

/// Law: a cell with zero live neighbours, alive or dead, is dead in the next
/// generation.
pub proof fn lemma_no_neighbors_dies(s: Set<Cell>, c: Cell)
    requires
        neighbor_count(s, c) == 0,
    ensures
        !tick_spec(s).contains(c),
{
}

/// Law: making a cell alive is idempotent — the model of `make_cell_alive`
/// applied twice with the same cell equals one application.
pub proof fn lemma_make_alive_idempotent(s: Set<Cell>, c: Cell)
    ensures
        s.insert(c).insert(c) == s.insert(c),
{
    assert(s.insert(c).insert(c) =~= s.insert(c));
}

/// Law: making a cell dead is idempotent — the model of `make_cell_dead`
/// applied twice with the same cell equals one application.
pub proof fn lemma_make_dead_idempotent(s: Set<Cell>, c: Cell)
    ensures
        s.remove(c).remove(c) == s.remove(c),
{
    assert(s.remove(c).remove(c) =~= s.remove(c));
}

/// A fresh set with the same live cells.
fn copy_cell_set(cells: &CellSet) -> (r: CellSet)
    ensures
        r.cells@ == cells.cells@,
        r@ == cells@,
        cells.wf() ==> r.wf(),
{
    let n = cells.cells.len();
    let mut v: Vec<Cell> = Vec::new();
    let mut i: usize = 0;
    while i < n
        invariant
            n == cells.cells@.len(),
            0 <= i <= n,
            v@ == cells.cells@.subrange(0, i as int),
        decreases n - i,
    {
        v.push(cells.cells[i]);
        i += 1;
    }
    proof {
        assert(v@ == cells.cells@.subrange(0, n as int));
        assert(v@ =~= cells.cells@);
    }
    CellSet { cells: v }
}

} // verus!

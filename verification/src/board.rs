use vstd::prelude::*;

verus! {

/// A single grid position of the minefield.
#[derive(Clone, Copy, PartialEq, Eq, Structural, Debug)]
pub struct Cell {
    /// Set once at generation; never changes afterwards.
    pub is_mined: bool,
    /// Starts false; once true, never reverts to false.
    pub is_open: bool,
    /// User-toggleable while the cell is closed.
    pub is_flagged: bool,
    /// Number of mined cells among the up-to-8 neighbors; fixed at generation.
    pub adjacent_mine_count: u8,
}

impl Cell {
    /// The state of a fresh cell: unmined, closed, unflagged, zero count.
    pub open spec fn fresh_spec() -> Cell {
        Cell { is_mined: false, is_open: false, is_flagged: false, adjacent_mine_count: 0 }
    }

    /// A fresh cell: unmined, closed, unflagged, zero adjacency count.
    pub fn new() -> (c: Cell)
        ensures
            c == Cell::fresh_spec(),
    {
        Cell { is_mined: false, is_open: false, is_flagged: false, adjacent_mine_count: 0 }
    }
}

/// The only constructible error: a board configuration whose mine count or
/// dimensions do not admit a well-formed board.
#[derive(Clone, Copy, PartialEq, Eq, Structural, Debug)]
pub enum BoardError {
    InvalidBoardConfiguration,
}

/// A rectangular grid of cells, stored row-major: the cell at `(row, col)`
/// lives at index `row * width + col`.
pub struct Board {
    pub width: usize,
    pub height: usize,
    pub cells: Vec<Cell>,
}

/// Number of mined cells in `s`.
pub open spec fn count_mined(s: Seq<Cell>) -> nat
    decreases s.len(),
{
    if s.len() == 0 {
        0
    } else {
        count_mined(s.drop_last()) + (if s.last().is_mined { 1nat } else { 0nat })
    }
}

/// Number of closed (not yet opened) cells in `s`.
pub open spec fn count_closed(s: Seq<Cell>) -> nat
    decreases s.len(),
{
    if s.len() == 0 {
        0
    } else {
        count_closed(s.drop_last()) + (if !s.last().is_open { 1nat } else { 0nat })
    }
}

/// The two positions are distinct and at most one row and one column apart:
/// one is among the up-to-8 neighbors of the other.
pub open spec fn adjacent(r1: int, c1: int, r2: int, c2: int) -> bool {
    &&& -1 <= r1 - r2 <= 1
    &&& -1 <= c1 - c2 <= 1
    &&& !(r1 == r2 && c1 == c2)
}

impl Board {
    /// Total number of grid positions.
    pub open spec fn total(self) -> int {
        self.width * self.height
    }

    /// Basic well-formedness: positive dimensions and a cell for every position.
    pub open spec fn wf(self) -> bool {
        &&& 1 <= self.width
        &&& 1 <= self.height
        &&& self.cells@.len() == self.width * self.height
    }

    pub open spec fn in_bounds(self, r: int, c: int) -> bool {
        0 <= r < self.height && 0 <= c < self.width
    }

    /// Row-major index of position `(r, c)`.
    pub open spec fn idx(self, r: int, c: int) -> int {
        r * (self.width as int) + c
    }

    /// The cell at position `(r, c)`.
    pub open spec fn cell(self, r: int, c: int) -> Cell
        recommends
            self.in_bounds(r, c),
    {
        self.cells@[self.idx(r, c)]
    }

    /// 1 if `(r, c)` is an in-bounds mined cell, else 0.
    pub open spec fn mined_at(self, r: int, c: int) -> int {
        if self.in_bounds(r, c) && self.cell(r, c).is_mined { 1 } else { 0 }
    }

    /// Number of mined cells among the up-to-8 neighbors of `(r, c)`.
    #[verifier::opaque]
    pub open spec fn adj_mines(self, r: int, c: int) -> int {
        self.mined_at(r - 1, c - 1) + self.mined_at(r - 1, c) + self.mined_at(r - 1, c + 1)
            + self.mined_at(r, c - 1) + self.mined_at(r, c + 1)
            + self.mined_at(r + 1, c - 1) + self.mined_at(r + 1, c) + self.mined_at(r + 1, c + 1)
    }

    /// 1 if `(r, c)` is an in-bounds flagged cell, else 0.
    pub open spec fn flagged_at(self, r: int, c: int) -> int {
        if self.in_bounds(r, c) && self.cell(r, c).is_flagged { 1 } else { 0 }
    }

    /// Number of flagged cells among the up-to-8 neighbors of `(r, c)`.
    #[verifier::opaque]
    pub open spec fn adj_flags(self, r: int, c: int) -> int {
        self.flagged_at(r - 1, c - 1) + self.flagged_at(r - 1, c) + self.flagged_at(r - 1, c + 1)
            + self.flagged_at(r, c - 1) + self.flagged_at(r, c + 1)
            + self.flagged_at(r + 1, c - 1) + self.flagged_at(r + 1, c) + self.flagged_at(r + 1, c + 1)
    }

    /// Every cell's stored adjacency count equals the actual number of mined neighbors.
    pub open spec fn counts_ok(self) -> bool {
        forall|r: int, c: int|
            self.in_bounds(r, c) ==> (#[trigger] self.cell(r, c)).adjacent_mine_count
                == self.adj_mines(r, c)
    }

    /// Number of mined cells on the whole board.
    pub open spec fn mine_total(self) -> nat {
        count_mined(self.cells@)
    }

    /// Every cell is closed and unflagged (a freshly generated board).
    pub open spec fn all_closed_unflagged(self) -> bool {
        forall|r: int, c: int|
            self.in_bounds(r, c) ==> !(#[trigger] self.cell(r, c)).is_open
                && !self.cell(r, c).is_flagged
    }

    /// Every mined cell has been opened (the board shown after a loss).
    pub open spec fn all_mines_open(self) -> bool {
        forall|r: int, c: int|
            self.in_bounds(r, c) && (#[trigger] self.cell(r, c)).is_mined
                ==> self.cell(r, c).is_open
    }

    /// No mined cell has been opened.
    pub open spec fn no_mine_open(self) -> bool {
        forall|r: int, c: int|
            self.in_bounds(r, c) && (#[trigger] self.cell(r, c)).is_mined
                ==> !self.cell(r, c).is_open
    }

    /// The win condition: every non-mined cell is open (flags and the state of
    /// the mines themselves are irrelevant).
    pub open spec fn win_cond(self) -> bool {
        forall|r: int, c: int|
            self.in_bounds(r, c) && !(#[trigger] self.cell(r, c)).is_mined
                ==> self.cell(r, c).is_open
    }

    /// Read the cell at `(row, col)`.
    pub fn get(&self, row: usize, col: usize) -> (c: Cell)
        requires
            self.wf(),
            self.in_bounds(row as int, col as int),
        ensures
            c == self.cell(row as int, col as int),
    {
        proof {
            vstd::std_specs::vec::axiom_spec_len(&self.cells);
            lemma_idx_in_range(*self, row as int, col as int);
        }
        self.cells[row * self.width + col]
    }

    /// Overwrite the cell at `(row, col)`.
    pub(crate) fn set(&mut self, row: usize, col: usize, c: Cell)
        requires
            old(self).wf(),
            old(self).in_bounds(row as int, col as int),
        ensures
            final(self).width == old(self).width,
            final(self).height == old(self).height,
            final(self).cells@ == old(self).cells@.update(old(self).idx(row as int, col as int), c),
            final(self).wf(),
    {
        proof {
            vstd::std_specs::vec::axiom_spec_len(&self.cells);
            lemma_idx_in_range(*self, row as int, col as int);
        }
        let i = row * self.width + col;
        self.cells[i] = c;
    }
}

/// A row-major index computed from an in-bounds position is a valid index
/// into the cell vector.
pub broadcast proof fn lemma_idx_in_range(b: Board, r: int, c: int)
    requires
        b.wf(),
        b.in_bounds(r, c),
    ensures
        0 <= #[trigger] b.idx(r, c) < b.cells@.len(),
{
    assert(0 <= r * (b.width as int) + c < (b.height as int) * (b.width as int)) by (nonlinear_arith)
        requires
            0 <= r < b.height as int,
            0 <= c < b.width as int,
    ;
    assert((b.width as int) * (b.height as int) == (b.height as int) * (b.width as int)) by (nonlinear_arith);
}

/// Row-major indexing is injective on in-bounds positions.
pub broadcast proof fn lemma_idx_injective(b: Board, r1: int, c1: int, r2: int, c2: int)
    requires
        b.wf(),
        b.in_bounds(r1, c1),
        b.in_bounds(r2, c2),
    ensures
        #![trigger b.idx(r1, c1), b.idx(r2, c2)]
        b.idx(r1, c1) == b.idx(r2, c2) ==> r1 == r2 && c1 == c2,
{
    assert(r1 * (b.width as int) + c1 == r2 * (b.width as int) + c2 ==> r1 == r2 && c1 == c2)
        by (nonlinear_arith)
        requires
            0 <= c1 < b.width as int,
            0 <= c2 < b.width as int,
    ;
}

/// Every in-range index of the cell vector is the row-major index of some
/// in-bounds position.
pub proof fn lemma_coords_of_index(b: Board, i: int)
    requires
        b.wf(),
        0 <= i < b.cells@.len(),
    ensures
        b.in_bounds(i / (b.width as int), i % (b.width as int)),
        b.idx(i / (b.width as int), i % (b.width as int)) == i,
{
    let w = b.width as int;
    let h = b.height as int;
    assert(0 <= i % w < w && w * (i / w) + i % w == i) by (nonlinear_arith)
        requires
            w >= 1,
            0 <= i,
    ;
    assert(0 <= i / w < h && (i / w) * w == w * (i / w)) by (nonlinear_arith)
        requires
            w >= 1,
            h >= 1,
            0 <= i < h * w,
            0 <= i % w < w,
            w * (i / w) + i % w == i,
    ;
}

/// The mine count is bounded by the length of the sequence.
pub proof fn lemma_count_mined_le_len(s: Seq<Cell>)
    ensures
        count_mined(s) <= s.len(),
    decreases s.len(),
{
    if s.len() > 0 {
        lemma_count_mined_le_len(s.drop_last());
    }
}

/// How the mine count changes when one cell is replaced.
pub proof fn lemma_count_mined_update(s: Seq<Cell>, i: int, c: Cell)
    requires
        0 <= i < s.len(),
    ensures
        count_mined(s.update(i, c)) + (if s[i].is_mined { 1nat } else { 0nat })
            == count_mined(s) + (if c.is_mined { 1nat } else { 0nat }),
    decreases s.len(),
{
    let t = s.update(i, c);
    if i == s.len() - 1 {
        assert(t.drop_last() =~= s.drop_last());
        assert(t.last() == c);
    } else {
        assert(t.drop_last() =~= s.drop_last().update(i, c));
        assert(t.last() == s.last());
        lemma_count_mined_update(s.drop_last(), i, c);
    }
}

/// How the closed-cell count changes when one cell is replaced.
pub proof fn lemma_count_closed_update(s: Seq<Cell>, i: int, c: Cell)
    requires
        0 <= i < s.len(),
    ensures
        count_closed(s.update(i, c)) + (if !s[i].is_open { 1nat } else { 0nat })
            == count_closed(s) + (if !c.is_open { 1nat } else { 0nat }),
    decreases s.len(),
{
    let t = s.update(i, c);
    if i == s.len() - 1 {
        assert(t.drop_last() =~= s.drop_last());
        assert(t.last() == c);
    } else {
        assert(t.drop_last() =~= s.drop_last().update(i, c));
        assert(t.last() == s.last());
        lemma_count_closed_update(s.drop_last(), i, c);
    }
}

/// The mine count depends only on which cells are mined.
pub proof fn lemma_count_mined_pointwise(s1: Seq<Cell>, s2: Seq<Cell>)
    requires
        s1.len() == s2.len(),
        forall|i: int| 0 <= i < s1.len()
            ==> (#[trigger] s1[i]).is_mined == (#[trigger] s2[i]).is_mined,
    ensures
        count_mined(s1) == count_mined(s2),
    decreases s1.len(),
{
    if s1.len() > 0 {
        assert forall|i: int| 0 <= i < s1.len() - 1 implies (#[trigger] s1.drop_last()[i]).is_mined
            == (#[trigger] s2.drop_last()[i]).is_mined by {
            assert(s1.drop_last()[i] == s1[i]);
            assert(s2.drop_last()[i] == s2[i]);
        }
        lemma_count_mined_pointwise(s1.drop_last(), s2.drop_last());
        assert(s1.last().is_mined == s2.last().is_mined);
    }
}

/// A sequence without mined cells has mine count zero.
pub proof fn lemma_count_mined_zero(s: Seq<Cell>)
    requires
        forall|i: int| 0 <= i < s.len() ==> !(#[trigger] s[i]).is_mined,
    ensures
        count_mined(s) == 0,
    decreases s.len(),
{
    if s.len() > 0 {
        assert forall|i: int| 0 <= i < s.len() - 1 implies !(#[trigger] s.drop_last()[i]).is_mined by {
            assert(s.drop_last()[i] == s[i]);
        }
        lemma_count_mined_zero(s.drop_last());
    }
}

/// If fewer than all cells are mined, some cell is not.
pub proof fn lemma_unmined_exists(s: Seq<Cell>)
    requires
        count_mined(s) < s.len(),
    ensures
        exists|i: int| 0 <= i < s.len() && !(#[trigger] s[i]).is_mined,
    decreases s.len(),
{
    if !s.last().is_mined {
        assert(0 <= s.len() - 1 < s.len() && !s[s.len() - 1].is_mined);
    } else {
        lemma_count_mined_le_len(s.drop_last());
        lemma_unmined_exists(s.drop_last());
        let j = choose|i: int| 0 <= i < s.drop_last().len() && !(#[trigger] s.drop_last()[i]).is_mined;
        assert(s.drop_last()[j] == s[j]);
        assert(0 <= j < s.len() && !s[j].is_mined);
    }
}

/// The boards have equal dimensions and equally many cells.
pub open spec fn same_dims(a: Board, b: Board) -> bool {
    a.width == b.width && a.height == b.height && a.cells@.len() == b.cells@.len()
}

/// `b` differs from `a` at most in which cells are open: mines, flags and
/// adjacency counts agree position by position.
pub open spec fn same_except_open(a: Board, b: Board) -> bool {
    &&& same_dims(a, b)
    &&& forall|r: int, c: int|
        a.in_bounds(r, c) ==> {
            let ca = a.cell(r, c);
            let cb = #[trigger] b.cell(r, c);
            cb.is_mined == ca.is_mined && cb.is_flagged == ca.is_flagged
                && cb.adjacent_mine_count == ca.adjacent_mine_count
        }
}

/// Every cell open in `a` is still open in `b`.
pub open spec fn opens_monotone(a: Board, b: Board) -> bool {
    forall|r: int, c: int|
        a.in_bounds(r, c) && (#[trigger] a.cell(r, c)).is_open ==> b.cell(r, c).is_open
}

/// The cell at `(r, c)` was closed in `a` and is open in `b`.
pub open spec fn newly_opened(a: Board, b: Board, r: int, c: int) -> bool {
    a.in_bounds(r, c) && !a.cell(r, c).is_open && b.cell(r, c).is_open
}

/// Adjacency sums depend only on which cells are mined.
pub proof fn lemma_adj_mines_same(a: Board, b: Board, r: int, c: int)
    requires
        same_dims(a, b),
        forall|r2: int, c2: int|
            a.in_bounds(r2, c2) ==> (#[trigger] b.cell(r2, c2)).is_mined == a.cell(r2, c2).is_mined,
    ensures
        b.adj_mines(r, c) == a.adj_mines(r, c),
{
    reveal(Board::adj_mines);
    assert(b.mined_at(r - 1, c - 1) == a.mined_at(r - 1, c - 1));
    assert(b.mined_at(r - 1, c) == a.mined_at(r - 1, c));
    assert(b.mined_at(r - 1, c + 1) == a.mined_at(r - 1, c + 1));
    assert(b.mined_at(r, c - 1) == a.mined_at(r, c - 1));
    assert(b.mined_at(r, c + 1) == a.mined_at(r, c + 1));
    assert(b.mined_at(r + 1, c - 1) == a.mined_at(r + 1, c - 1));
    assert(b.mined_at(r + 1, c) == a.mined_at(r + 1, c));
    assert(b.mined_at(r + 1, c + 1) == a.mined_at(r + 1, c + 1));
}

/// Whether a board configuration is acceptable: positive dimensions, a mine
/// count strictly below the number of cells, and a cell count that fits the
/// machine word.
pub open spec fn config_ok(width: usize, height: usize, mine_count: usize) -> bool {
    &&& width >= 1
    &&& height >= 1
    &&& (mine_count as int) < (width as int) * (height as int)
    &&& (width as int) * (height as int) <= usize::MAX as int
}

impl Board {
    /// True exactly when `(r, c)` is an in-bounds mined cell; positions off
    /// the grid count as unmined.
    fn mined_probe(&self, r: usize, c: usize) -> (b: bool)
        requires
            self.wf(),
        ensures
            b == (self.mined_at(r as int, c as int) == 1),
    {
        if r < self.height && c < self.width {
            let cl = self.get(r, c);
            cl.is_mined
        } else {
            false
        }
    }

    /// True exactly when `(r, c)` is an in-bounds flagged cell.
    fn flagged_probe(&self, r: usize, c: usize) -> (b: bool)
        requires
            self.wf(),
        ensures
            b == (self.flagged_at(r as int, c as int) == 1),
    {
        if r < self.height && c < self.width {
            let cl = self.get(r, c);
            cl.is_flagged
        } else {
            false
        }
    }

    /// Count the mined cells among the up-to-8 neighbors of `(row, col)`.
    pub fn mined_neighbors(&self, row: usize, col: usize) -> (n: u8)
        requires
            self.wf(),
            self.in_bounds(row as int, col as int),
        ensures
            n as int == self.adj_mines(row as int, col as int),
    {
        proof {
            reveal(Board::adj_mines);
        }
        let mut n: u8 = 0;
        if row > 0 {
            if col > 0 && self.mined_probe(row - 1, col - 1) {
                n = n + 1;
            }
            if self.mined_probe(row - 1, col) {
                n = n + 1;
            }
            if self.mined_probe(row - 1, col + 1) {
                n = n + 1;
            }
        }
        if col > 0 && self.mined_probe(row, col - 1) {
            n = n + 1;
        }
        if self.mined_probe(row, col + 1) {
            n = n + 1;
        }
        if col > 0 && self.mined_probe(row + 1, col - 1) {
            n = n + 1;
        }
        if self.mined_probe(row + 1, col) {
            n = n + 1;
        }
        if self.mined_probe(row + 1, col + 1) {
            n = n + 1;
        }
        n
    }

    /// Count the flagged cells among the up-to-8 neighbors of `(row, col)`.
    pub fn flagged_neighbors(&self, row: usize, col: usize) -> (n: u8)
        requires
            self.wf(),
            self.in_bounds(row as int, col as int),
        ensures
            n as int == self.adj_flags(row as int, col as int),
    {
        proof {
            reveal(Board::adj_flags);
        }
        let mut n: u8 = 0;
        if row > 0 {
            if col > 0 && self.flagged_probe(row - 1, col - 1) {
                n = n + 1;
            }
            if self.flagged_probe(row - 1, col) {
                n = n + 1;
            }
            if self.flagged_probe(row - 1, col + 1) {
                n = n + 1;
            }
        }
        if col > 0 && self.flagged_probe(row, col - 1) {
            n = n + 1;
        }
        if self.flagged_probe(row, col + 1) {
            n = n + 1;
        }
        if col > 0 && self.flagged_probe(row + 1, col - 1) {
            n = n + 1;
        }
        if self.flagged_probe(row + 1, col) {
            n = n + 1;
        }
        if self.flagged_probe(row + 1, col + 1) {
            n = n + 1;
        }
        n
    }

    /// Index of the first unmined cell; one exists because fewer than all
    /// cells are mined.
    fn first_unmined(&self) -> (i: usize)
        requires
            self.wf(),
            count_mined(self.cells@) < self.cells@.len(),
        ensures
            i < self.cells@.len(),
            !self.cells@[i as int].is_mined,
    {
        let n = self.cells.len();
        let mut j: usize = 0;
        while j < n
            invariant
                j <= n,
                n == self.cells@.len(),
                count_mined(self.cells@) < self.cells@.len(),
                forall|k: int| 0 <= k < j ==> (#[trigger] self.cells@[k]).is_mined,
            decreases n - j,
        {
            if !self.cells[j].is_mined {
                return j;
            }
            j = j + 1;
        }
        proof {
            lemma_unmined_exists(self.cells@);
        }
        0
    }

    /// Place `mine_count` mines on a board without any: a random position is
    /// tried first, and the first unmined cell is taken when the random pick
    /// is already mined, so placement always terminates.
    fn place_mines(&mut self, mine_count: usize)
        requires
            old(self).wf(),
            count_mined(old(self).cells@) == 0,
            mine_count < old(self).cells@.len(),
        ensures
            final(self).wf(),
            final(self).width == old(self).width,
            final(self).height == old(self).height,
            final(self).cells@.len() == old(self).cells@.len(),
            count_mined(final(self).cells@) == mine_count,
            forall|i: int| 0 <= i < final(self).cells@.len() ==> {
                let oc = old(self).cells@[i];
                let nc = #[trigger] final(self).cells@[i];
                nc.is_open == oc.is_open && nc.is_flagged == oc.is_flagged
                    && nc.adjacent_mine_count == oc.adjacent_mine_count
            },
    {
        let total = self.cells.len();
        let mut placed: usize = 0;
        while placed < mine_count
            invariant
                self.wf(),
                self.width == old(self).width,
                self.height == old(self).height,
                self.cells@.len() == old(self).cells@.len(),
                total == self.cells@.len(),
                placed <= mine_count,
                mine_count < self.cells@.len(),
                count_mined(self.cells@) == placed,
                forall|i: int| 0 <= i < self.cells@.len() ==> {
                    let oc = old(self).cells@[i];
                    let nc = #[trigger] self.cells@[i];
                    nc.is_open == oc.is_open && nc.is_flagged == oc.is_flagged
                        && nc.adjacent_mine_count == oc.adjacent_mine_count
                },
            decreases mine_count - placed,
        {
            let pick = crate::rng::random_below(total);
            let i = if !self.cells[pick].is_mined {
                pick
            } else {
                self.first_unmined()
            };
            let mut cl = self.cells[i];
            cl.is_mined = true;
            proof {
                lemma_count_mined_update(self.cells@, i as int, cl);
            }
            self.cells[i] = cl;
            placed = placed + 1;
        }
    }

    /// Fill in every cell's `adjacent_mine_count` from the mine layout.
    fn compute_counts(&mut self)
        requires
            old(self).wf(),
        ensures
            final(self).wf(),
            final(self).width == old(self).width,
            final(self).height == old(self).height,
            final(self).cells@.len() == old(self).cells@.len(),
            final(self).counts_ok(),
            count_mined(final(self).cells@) == count_mined(old(self).cells@),
            forall|i: int| 0 <= i < final(self).cells@.len() ==> {
                let oc = old(self).cells@[i];
                let nc = #[trigger] final(self).cells@[i];
                nc.is_mined == oc.is_mined && nc.is_open == oc.is_open
                    && nc.is_flagged == oc.is_flagged
            },
    {
        let h = self.height;
        let w = self.width;
        let mut r: usize = 0;
        while r < h
            invariant
                self.wf(),
                self.width == old(self).width,
                self.height == old(self).height,
                self.cells@.len() == old(self).cells@.len(),
                w == self.width,
                h == self.height,
                r <= h,
                forall|i: int| 0 <= i < self.cells@.len() ==> {
                    let oc = old(self).cells@[i];
                    let nc = #[trigger] self.cells@[i];
                    nc.is_mined == oc.is_mined && nc.is_open == oc.is_open
                        && nc.is_flagged == oc.is_flagged
                },
                forall|r2: int, c2: int|
                    self.in_bounds(r2, c2) && r2 < r
                        ==> (#[trigger] self.cell(r2, c2)).adjacent_mine_count
                            == self.adj_mines(r2, c2),
            decreases h - r,
        {
            let mut c: usize = 0;
            while c < w
                invariant
                    self.wf(),
                    self.width == old(self).width,
                    self.height == old(self).height,
                    self.cells@.len() == old(self).cells@.len(),
                    w == self.width,
                    h == self.height,
                    r < h,
                    c <= w,
                    forall|i: int| 0 <= i < self.cells@.len() ==> {
                        let oc = old(self).cells@[i];
                        let nc = #[trigger] self.cells@[i];
                        nc.is_mined == oc.is_mined && nc.is_open == oc.is_open
                            && nc.is_flagged == oc.is_flagged
                    },
                    forall|r2: int, c2: int|
                        self.in_bounds(r2, c2) && (r2 < r || (r2 == r && c2 < c))
                            ==> (#[trigger] self.cell(r2, c2)).adjacent_mine_count
                                == self.adj_mines(r2, c2),
                decreases w - c,
            {
                let n = self.mined_neighbors(r, c);
                let mut cl = self.get(r, c);
                cl.adjacent_mine_count = n;
                let ghost prev = *self;
                self.set(r, c, cl);
                proof {
                    lemma_idx_in_range(prev, r as int, c as int);
                    assert forall|r2: int, c2: int| self.in_bounds(r2, c2) implies
                        (#[trigger] self.cell(r2, c2)).is_mined == prev.cell(r2, c2).is_mined
                        && self.cell(r2, c2).is_open == prev.cell(r2, c2).is_open
                        && self.cell(r2, c2).is_flagged == prev.cell(r2, c2).is_flagged by {
                        lemma_idx_in_range(prev, r2, c2);
                        lemma_idx_injective(prev, r2, c2, r as int, c as int);
                    }
                    assert forall|r2: int, c2: int|
                        self.in_bounds(r2, c2) && (r2 < r || (r2 == r && c2 < c + 1)) implies
                        (#[trigger] self.cell(r2, c2)).adjacent_mine_count
                            == self.adj_mines(r2, c2) by {
                        lemma_idx_in_range(prev, r2, c2);
                        lemma_idx_injective(prev, r2, c2, r as int, c as int);
                        lemma_adj_mines_same(prev, *self, r2, c2);
                    }
                }
                c = c + 1;
            }
            r = r + 1;
        }
        proof {
            lemma_count_mined_pointwise(old(self).cells@, self.cells@);
        }
    }

    /// Generate a fully populated board: mines placed (partly at random) and
    /// every adjacency count computed. Returns the only constructible error
    /// exactly when the configuration is unacceptable.
    pub fn generate(width: usize, height: usize, mine_count: usize) -> (res: Result<
        Board,
        BoardError,
    >)
        ensures
            match res {
                Ok(b) => {
                    &&& config_ok(width, height, mine_count)
                    &&& b.wf()
                    &&& b.width == width
                    &&& b.height == height
                    &&& b.mine_total() == mine_count
                    &&& b.counts_ok()
                    &&& b.all_closed_unflagged()
                },
                Err(e) => {
                    &&& e == BoardError::InvalidBoardConfiguration
                    &&& !config_ok(width, height, mine_count)
                },
            },
    {
        if width == 0 || height == 0 {
            return Err(BoardError::InvalidBoardConfiguration);
        }
        let total = match width.checked_mul(height) {
            Some(t) => t,
            None => {
                return Err(BoardError::InvalidBoardConfiguration);
            },
        };
        if mine_count >= total {
            return Err(BoardError::InvalidBoardConfiguration);
        }
        let mut cells: Vec<Cell> = Vec::new();
        let mut i: usize = 0;
        while i < total
            invariant
                i <= total,
                cells@.len() == i,
                forall|k: int| 0 <= k < i ==> #[trigger] cells@[k] == Cell::fresh_spec(),
            decreases total - i,
        {
            cells.push(Cell::new());
            i = i + 1;
        }
        let mut b = Board { width, height, cells };
        proof {
            lemma_count_mined_zero(b.cells@);
        }
        b.place_mines(mine_count);
        b.compute_counts();
        proof {
            assert forall|r: int, c: int| b.in_bounds(r, c) implies !(#[trigger] b.cell(r, c)).is_open
                && !b.cell(r, c).is_flagged by {
                lemma_idx_in_range(b, r, c);
            }
        }
        Ok(b)
    }
}

/// Whether a mine list is acceptable for the given dimensions: the
/// configuration itself acceptable with the list's length as mine count,
/// every listed `(row, col)` in bounds, and no position listed twice.
pub open spec fn mines_ok(width: usize, height: usize, mines: Seq<(usize, usize)>) -> bool {
    &&& width >= 1
    &&& height >= 1
    &&& (mines.len() as int) < (width as int) * (height as int)
    &&& (width as int) * (height as int) <= usize::MAX as int
    &&& forall|k: int| 0 <= k < mines.len()
        ==> (#[trigger] mines[k]).0 < height && mines[k].1 < width
    &&& forall|k1: int, k2: int| 0 <= k1 < k2 < mines.len()
        ==> #[trigger] mines[k1] != #[trigger] mines[k2]
}

/// The position `(r, c)` occurs in the mine list.
pub open spec fn listed(mines: Seq<(usize, usize)>, r: int, c: int) -> bool {
    exists|k: int| 0 <= k < mines.len() && (#[trigger] mines[k]).0 == r && mines[k].1 == c
}

impl Board {
    /// A board of fresh cells with the given dimensions.
    fn fresh_board(width: usize, height: usize, total: usize) -> (b: Board)
        requires
            width >= 1,
            height >= 1,
            total == (width as int) * (height as int),
        ensures
            b.wf(),
            b.width == width,
            b.height == height,
            forall|j: int| 0 <= j < b.cells@.len() ==> #[trigger] b.cells@[j] == Cell::fresh_spec(),
            count_mined(b.cells@) == 0,
    {
        let mut cells: Vec<Cell> = Vec::new();
        let mut i: usize = 0;
        while i < total
            invariant
                i <= total,
                cells@.len() == i,
                forall|j: int| 0 <= j < i ==> #[trigger] cells@[j] == Cell::fresh_spec(),
            decreases total - i,
        {
            cells.push(Cell::new());
            i = i + 1;
        }
        let b = Board { width, height, cells };
        proof {
            lemma_count_mined_zero(b.cells@);
        }
        b
    }

    /// Mark as mined every position of a list of distinct in-bounds positions,
    /// on a board of fresh cells.
    fn place_listed(&mut self, mines: &Vec<(usize, usize)>)
        requires
            old(self).wf(),
            mines_ok(old(self).width, old(self).height, mines@),
            forall|j: int| 0 <= j < old(self).cells@.len()
                ==> #[trigger] old(self).cells@[j] == Cell::fresh_spec(),
        ensures
            final(self).wf(),
            final(self).width == old(self).width,
            final(self).height == old(self).height,
            count_mined(final(self).cells@) == mines@.len(),
            forall|i2: int| 0 <= i2 < final(self).cells@.len()
                ==> !(#[trigger] final(self).cells@[i2]).is_open
                    && !final(self).cells@[i2].is_flagged
                    && final(self).cells@[i2].adjacent_mine_count == 0,
            forall|r: int, c: int|
                final(self).in_bounds(r, c)
                    ==> ((#[trigger] final(self).cell(r, c)).is_mined <==> listed(mines@, r, c)),
    {
        let m = mines.len();
        proof {
            lemma_count_mined_zero(self.cells@);
            assert forall|r: int, c: int| self.in_bounds(r, c) implies !(#[trigger] self.cell(
                r,
                c,
            )).is_mined by {
                lemma_idx_in_range(*self, r, c);
            }
        }
        let mut k: usize = 0;
        while k < m
            invariant
                k <= m,
                m == mines@.len(),
                mines_ok(old(self).width, old(self).height, mines@),
                self.wf(),
                self.width == old(self).width,
                self.height == old(self).height,
                count_mined(self.cells@) == k,
                forall|i2: int| 0 <= i2 < self.cells@.len() ==> !(#[trigger] self.cells@[i2]).is_open
                    && !self.cells@[i2].is_flagged && self.cells@[i2].adjacent_mine_count == 0,
                forall|r: int, c: int|
                    self.in_bounds(r, c)
                        ==> ((#[trigger] self.cell(r, c)).is_mined <==> exists|j: int|
                            0 <= j < k && (#[trigger] mines@[j]).0 == r && mines@[j].1 == c),
            decreases m - k,
        {
            let p = mines[k];
            let pr = p.0;
            let pc = p.1;
            let mut cl = self.get(pr, pc);
            proof {
                if cl.is_mined {
                    let j = choose|j: int|
                        0 <= j < k && (#[trigger] mines@[j]).0 == pr as int && mines@[j].1 == pc as int;
                    assert(mines@[j] == mines@[k as int]);
                    assert(false);
                }
            }
            cl.is_mined = true;
            let ghost prev = *self;
            proof {
                lemma_idx_in_range(*self, pr as int, pc as int);
                lemma_count_mined_update(self.cells@, self.idx(pr as int, pc as int), cl);
            }
            self.set(pr, pc, cl);
            proof {
                assert forall|r: int, c: int| self.in_bounds(r, c) implies
                    ((#[trigger] self.cell(r, c)).is_mined <==> exists|j: int|
                        0 <= j < k + 1 && (#[trigger] mines@[j]).0 == r && mines@[j].1 == c) by {
                    lemma_idx_in_range(prev, r, c);
                    lemma_idx_injective(prev, r, c, pr as int, pc as int);
                    if r == pr as int && c == pc as int {
                        assert(0 <= k < k + 1 && mines@[k as int].0 == r && mines@[k as int].1 == c);
                    } else {
                        assert(self.cell(r, c) == prev.cell(r, c));
                        if prev.cell(r, c).is_mined {
                            let j = choose|j: int|
                                0 <= j < k && (#[trigger] mines@[j]).0 == r && mines@[j].1 == c;
                            assert(0 <= j < k + 1 && mines@[j].0 == r && mines@[j].1 == c);
                        }
                        if exists|j: int|
                            0 <= j < k + 1 && (#[trigger] mines@[j]).0 == r && mines@[j].1 == c {
                            let j = choose|j: int|
                                0 <= j < k + 1 && (#[trigger] mines@[j]).0 == r && mines@[j].1 == c;
                            assert(j != k as int);
                            assert(0 <= j < k && mines@[j].0 == r && mines@[j].1 == c);
                        }
                    }
                }
            }
            k = k + 1;
        }
    }

    /// Build a fully populated board with mines exactly at the listed
    /// positions. Returns the only constructible error exactly when the
    /// dimensions or the list are unacceptable.
    pub fn with_mines(width: usize, height: usize, mines: &Vec<(usize, usize)>) -> (res: Result<
        Board,
        BoardError,
    >)
        ensures
            match res {
                Ok(b) => {
                    &&& mines_ok(width, height, mines@)
                    &&& b.wf()
                    &&& b.width == width
                    &&& b.height == height
                    &&& b.mine_total() == mines@.len()
                    &&& b.counts_ok()
                    &&& b.all_closed_unflagged()
                    &&& forall|r: int, c: int|
                        b.in_bounds(r, c)
                            ==> ((#[trigger] b.cell(r, c)).is_mined <==> listed(mines@, r, c))
                },
                Err(e) => {
                    &&& e == BoardError::InvalidBoardConfiguration
                    &&& !mines_ok(width, height, mines@)
                },
            },
    {
        if width == 0 || height == 0 {
            return Err(BoardError::InvalidBoardConfiguration);
        }
        let total = match width.checked_mul(height) {
            Some(t) => t,
            None => {
                return Err(BoardError::InvalidBoardConfiguration);
            },
        };
        let m = mines.len();
        if m >= total {
            return Err(BoardError::InvalidBoardConfiguration);
        }
        let mut k: usize = 0;
        while k < m
            invariant
                k <= m,
                m == mines@.len(),
                width >= 1,
                height >= 1,
                forall|j: int| 0 <= j < k ==> (#[trigger] mines@[j]).0 < height && mines@[j].1 < width,
            decreases m - k,
        {
            let p = mines[k];
            if p.0 >= height || p.1 >= width {
                return Err(BoardError::InvalidBoardConfiguration);
            }
            k = k + 1;
        }
        let mut k1: usize = 0;
        while k1 < m
            invariant
                k1 <= m,
                m == mines@.len(),
                forall|j1: int, j2: int| 0 <= j1 < j2 < mines@.len() && j1 < k1
                    ==> #[trigger] mines@[j1] != #[trigger] mines@[j2],
            decreases m - k1,
        {
            let mut k2: usize = k1 + 1;
            while k2 < m
                invariant
                    k1 < k2 <= m,
                    m == mines@.len(),
                    forall|j2: int| k1 < j2 < k2 ==> mines@[k1 as int] != #[trigger] mines@[j2],
                decreases m - k2,
            {
                let a = mines[k1];
                let b = mines[k2];
                if a.0 == b.0 && a.1 == b.1 {
                    return Err(BoardError::InvalidBoardConfiguration);
                }
                k2 = k2 + 1;
            }
            k1 = k1 + 1;
        }
        let mut b = Board::fresh_board(width, height, total);
        b.place_listed(mines);
        let ghost placed = b;
        b.compute_counts();
        proof {
            assert forall|r: int, c: int| b.in_bounds(r, c) implies !(#[trigger] b.cell(r, c)).is_open
                && !b.cell(r, c).is_flagged
                && (b.cell(r, c).is_mined <==> listed(mines@, r, c)) by {
                lemma_idx_in_range(placed, r, c);
                assert(placed.cell(r, c).is_mined <==> listed(mines@, r, c));
                assert(!placed.cells@[placed.idx(r, c)].is_open);
                assert(b.cells@[placed.idx(r, c)].is_open == placed.cells@[placed.idx(r, c)].is_open);
                assert(b.cell(r, c) == b.cells@[placed.idx(r, c)]);
            }
        }
        Ok(b)
    }
}


impl Board {
    /// Open the single (closed) cell at `(row, col)`, leaving every other
    /// cell and every other field untouched.
    pub(crate) fn open_cell_at(&mut self, row: usize, col: usize)
        requires
            old(self).wf(),
            old(self).in_bounds(row as int, col as int),
            !old(self).cell(row as int, col as int).is_open,
        ensures
            final(self).wf(),
            same_dims(*old(self), *final(self)),
            final(self).cell(row as int, col as int).is_open,
            forall|r: int, c: int|
                old(self).in_bounds(r, c) ==> {
                    let oc = old(self).cell(r, c);
                    let nc = #[trigger] final(self).cell(r, c);
                    nc.is_mined == oc.is_mined && nc.is_flagged == oc.is_flagged
                        && nc.adjacent_mine_count == oc.adjacent_mine_count
                        && nc.is_open == (oc.is_open || (r == row as int && c == col as int))
                },
            forall|i: int| 0 <= i < final(self).cells@.len() ==> {
                let oc = old(self).cells@[i];
                let nc = #[trigger] final(self).cells@[i];
                nc.is_mined == oc.is_mined && nc.is_flagged == oc.is_flagged
                    && nc.adjacent_mine_count == oc.adjacent_mine_count
                    && (oc.is_open ==> nc.is_open)
            },
            forall|r: int, c: int| #![trigger final(self).adj_mines(r, c)]
                final(self).adj_mines(r, c) == old(self).adj_mines(r, c),
            forall|r: int, c: int| #![trigger final(self).adj_flags(r, c)]
                final(self).adj_flags(r, c) == old(self).adj_flags(r, c),
            old(self).counts_ok() ==> final(self).counts_ok(),
            count_closed(final(self).cells@) + 1 == count_closed(old(self).cells@),
            count_mined(final(self).cells@) == count_mined(old(self).cells@),
    {
        let mut cl = self.get(row, col);
        cl.is_open = true;
        let ghost prev = *self;
        proof {
            lemma_idx_in_range(prev, row as int, col as int);
            lemma_count_closed_update(self.cells@, self.idx(row as int, col as int), cl);
            lemma_count_mined_update(self.cells@, self.idx(row as int, col as int), cl);
        }
        self.set(row, col, cl);
        proof {
            assert forall|r: int, c: int| prev.in_bounds(r, c) implies #[trigger] self.cell(r, c)
                == (if r == row as int && c == col as int {
                cl
            } else {
                prev.cell(r, c)
            }) by {
                lemma_idx_in_range(prev, r, c);
                lemma_idx_injective(prev, r, c, row as int, col as int);
            }
            assert forall|r: int, c: int| #![trigger self.adj_mines(r, c)] self.adj_mines(r, c)
                == prev.adj_mines(r, c) by {
                lemma_adj_mines_same(prev, *self, r, c);
            }
            assert forall|r: int, c: int| #![trigger self.adj_flags(r, c)] self.adj_flags(r, c)
                == prev.adj_flags(r, c) by {
                lemma_adj_flags_same(prev, *self, r, c);
            }
        }
    }
}

/// `(r, c)` can be reached from `(r0, c0)` in at most `n` steps, each step
/// passing from an in-bounds, still-closed, unflagged cell of adjacency
/// count zero to one of its neighbors.
pub open spec fn zero_path(b: Board, r0: int, c0: int, r: int, c: int, n: nat) -> bool
    decreases n,
{
    (r == r0 && c == c0) || (n > 0 && exists|qr: int, qc: int|
        zero_path(b, r0, c0, qr, qc, (n - 1) as nat) && b.in_bounds(qr, qc) && !b.cell(
            qr,
            qc,
        ).is_flagged && !b.cell(qr, qc).is_open && b.cell(qr, qc).adjacent_mine_count == 0
            && #[trigger] adjacent(qr, qc, r, c))
}

/// `(r, c)` lies in the region grown from `(r0, c0)` through closed,
/// unflagged zero-count cells.
pub open spec fn zero_reachable(b: Board, r0: int, c0: int, r: int, c: int) -> bool {
    exists|n: nat| zero_path(b, r0, c0, r, c, n)
}

/// A freshly generated board with at least one unmined cell is not yet won.
pub proof fn lemma_fresh_not_won(b: Board)
    requires
        b.wf(),
        b.all_closed_unflagged(),
        count_mined(b.cells@) < b.cells@.len(),
    ensures
        !b.win_cond(),
{
    lemma_unmined_exists(b.cells@);
    let i = choose|i: int| 0 <= i < b.cells@.len() && !(#[trigger] b.cells@[i]).is_mined;
    lemma_coords_of_index(b, i);
    let r = i / (b.width as int);
    let c = i % (b.width as int);
    assert(b.cell(r, c) == b.cells@[i]);
    assert(!b.cell(r, c).is_open && !b.cell(r, c).is_mined);
}

/// A cell whose mined-neighbor sum is zero has no mined neighbor.
pub proof fn lemma_zero_adj_no_mined_neighbor(b: Board, pr: int, pc: int, qr: int, qc: int)
    requires
        b.wf(),
        b.in_bounds(pr, pc),
        b.adj_mines(pr, pc) == 0,
        adjacent(pr, pc, qr, qc),
        b.in_bounds(qr, qc),
    ensures
        !b.cell(qr, qc).is_mined,
{
    reveal(Board::adj_mines);
    assert(b.mined_at(pr - 1, pc - 1) >= 0);
    assert(b.mined_at(pr - 1, pc) >= 0);
    assert(b.mined_at(pr - 1, pc + 1) >= 0);
    assert(b.mined_at(pr, pc - 1) >= 0);
    assert(b.mined_at(pr, pc + 1) >= 0);
    assert(b.mined_at(pr + 1, pc - 1) >= 0);
    assert(b.mined_at(pr + 1, pc) >= 0);
    assert(b.mined_at(pr + 1, pc + 1) >= 0);
    assert(b.mined_at(qr, qc) == 0);
}

/// Flag adjacency sums depend only on which cells are flagged.
pub proof fn lemma_adj_flags_same(a: Board, b: Board, r: int, c: int)
    requires
        same_dims(a, b),
        forall|r2: int, c2: int|
            a.in_bounds(r2, c2) ==> (#[trigger] b.cell(r2, c2)).is_flagged == a.cell(r2, c2).is_flagged,
    ensures
        b.adj_flags(r, c) == a.adj_flags(r, c),
{
    reveal(Board::adj_flags);
    assert(b.flagged_at(r - 1, c - 1) == a.flagged_at(r - 1, c - 1));
    assert(b.flagged_at(r - 1, c) == a.flagged_at(r - 1, c));
    assert(b.flagged_at(r - 1, c + 1) == a.flagged_at(r - 1, c + 1));
    assert(b.flagged_at(r, c - 1) == a.flagged_at(r, c - 1));
    assert(b.flagged_at(r, c + 1) == a.flagged_at(r, c + 1));
    assert(b.flagged_at(r + 1, c - 1) == a.flagged_at(r + 1, c - 1));
    assert(b.flagged_at(r + 1, c) == a.flagged_at(r + 1, c));
    assert(b.flagged_at(r + 1, c + 1) == a.flagged_at(r + 1, c + 1));
}

} // verus!

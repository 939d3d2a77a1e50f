use vstd::prelude::*;

verus! {

use crate::board::Board;
use crate::board::BoardError;
use crate::board::Cell;
use crate::board::adjacent;
use crate::board::config_ok;
use crate::board::count_mined;
use crate::board::lemma_adj_mines_same;
use crate::board::lemma_count_mined_pointwise;
use crate::board::lemma_fresh_not_won;
use crate::board::lemma_idx_in_range;
use crate::board::lemma_idx_injective;
use crate::board::listed;
use crate::board::mines_ok;
use crate::board::newly_opened;
use crate::board::opens_monotone;
use crate::board::same_except_open;
use crate::board::zero_path;
use crate::board::zero_reachable;

/// The round-level state machine: `Playing` is initial; a round moves to
/// `Lost` or `Won` at most once, and only a restart returns to `Playing`.
#[derive(Clone, Copy, PartialEq, Eq, Structural, Debug)]
pub enum GameOutcome {
    Playing,
    Lost,
    Won,
}

/// The rules engine: the live board plus the current outcome, with the mine
/// count kept for regeneration on restart.
pub struct GameEngine {
    pub board: Board,
    pub outcome: GameOutcome,
    pub mine_count: usize,
}

impl GameEngine {
    /// The engine invariant: a well-formed board with correct adjacency
    /// counts and exactly `mine_count` mines (fewer than there are cells);
    /// mined cells stay closed until the round is lost; and a round still
    /// being played is not yet won.
    pub open spec fn inv(self) -> bool {
        &&& self.board.wf()
        &&& self.board.counts_ok()
        &&& self.board.mine_total() == self.mine_count
        &&& (self.mine_count as int) < self.board.total()
        &&& (self.outcome != GameOutcome::Lost ==> self.board.no_mine_open())
        &&& (self.outcome == GameOutcome::Lost ==> self.board.all_mines_open())
        &&& (self.outcome == GameOutcome::Playing ==> !self.board.win_cond())
        &&& (self.outcome == GameOutcome::Won ==> self.board.win_cond())
    }

    /// The two engines hold the same cells and outcome.
    pub open spec fn unchanged_from(self, other: GameEngine) -> bool {
        &&& self.board.width == other.board.width
        &&& self.board.height == other.board.height
        &&& self.board.cells@ == other.board.cells@
        &&& self.outcome == other.outcome
        &&& self.mine_count == other.mine_count
    }

    /// `open(r, c)` is ignored: the round is over, the coordinates are out
    /// of bounds, or the cell is already open or flagged.
    pub open spec fn open_is_noop(self, r: int, c: int) -> bool {
        ||| self.outcome != GameOutcome::Playing
        ||| !self.board.in_bounds(r, c)
        ||| self.board.cell(r, c).is_open
        ||| self.board.cell(r, c).is_flagged
    }

    /// `toggle_flag(r, c)` is ignored: the round is over, the coordinates
    /// are out of bounds, or the cell is already open.
    pub open spec fn toggle_is_noop(self, r: int, c: int) -> bool {
        ||| self.outcome != GameOutcome::Playing
        ||| !self.board.in_bounds(r, c)
        ||| self.board.cell(r, c).is_open
    }

    /// How one flag toggle transforms the engine: exactly the flag of the
    /// (closed, in-bounds) target cell flips; everything else is kept.
    pub open spec fn toggle_rel(self, post: GameEngine, r: int, c: int) -> bool {
        &&& self.board.in_bounds(r, c)
        &&& !self.board.cell(r, c).is_open
        &&& post.board.width == self.board.width
        &&& post.board.height == self.board.height
        &&& post.board.cells@.len() == self.board.cells@.len()
        &&& post.outcome == self.outcome
        &&& post.mine_count == self.mine_count
        &&& forall|r2: int, c2: int|
            self.board.in_bounds(r2, c2) ==> {
                let oc = self.board.cell(r2, c2);
                let nc = #[trigger] post.board.cell(r2, c2);
                nc.is_mined == oc.is_mined && nc.is_open == oc.is_open
                    && nc.adjacent_mine_count == oc.adjacent_mine_count && nc.is_flagged == (
                if r2 == r && c2 == c {
                    !oc.is_flagged
                } else {
                    oc.is_flagged
                })
            }
    }

    /// Start a round: generate a board (mines partly at random) and begin
    /// playing. Returns the only constructible error exactly when the
    /// configuration is unacceptable.
    pub fn new(width: usize, height: usize, mine_count: usize) -> (res: Result<
        GameEngine,
        BoardError,
    >)
        ensures
            match res {
                Ok(e) => {
                    &&& config_ok(width, height, mine_count)
                    &&& e.inv()
                    &&& e.board.width == width
                    &&& e.board.height == height
                    &&& e.mine_count == mine_count
                    &&& e.outcome == GameOutcome::Playing
                    &&& e.board.all_closed_unflagged()
                },
                Err(err) => {
                    &&& err == BoardError::InvalidBoardConfiguration
                    &&& !config_ok(width, height, mine_count)
                },
            },
    {
        match Board::generate(width, height, mine_count) {
            Ok(b) => {
                proof {
                    lemma_fresh_not_won(b);
                }
                Ok(GameEngine { board: b, outcome: GameOutcome::Playing, mine_count })
            },
            Err(err) => Err(err),
        }
    }

    /// Start a round on a board with mines exactly at the listed positions
    /// (a deterministic constructor). Returns the only constructible error
    /// exactly when the dimensions or the list are unacceptable.
    pub fn with_mines(width: usize, height: usize, mines: &Vec<(usize, usize)>) -> (res: Result<
        GameEngine,
        BoardError,
    >)
        ensures
            match res {
                Ok(e) => {
                    &&& mines_ok(width, height, mines@)
                    &&& e.inv()
                    &&& e.board.width == width
                    &&& e.board.height == height
                    &&& e.mine_count == mines@.len()
                    &&& e.outcome == GameOutcome::Playing
                    &&& e.board.all_closed_unflagged()
                    &&& forall|r: int, c: int|
                        e.board.in_bounds(r, c)
                            ==> ((#[trigger] e.board.cell(r, c)).is_mined <==> listed(
                            mines@,
                            r,
                            c,
                        ))
                },
                Err(err) => {
                    &&& err == BoardError::InvalidBoardConfiguration
                    &&& !mines_ok(width, height, mines@)
                },
            },
    {
        match Board::with_mines(width, height, mines) {
            Ok(b) => {
                proof {
                    lemma_fresh_not_won(b);
                }
                let m = mines.len();
                Ok(GameEngine { board: b, outcome: GameOutcome::Playing, mine_count: m })
            },
            Err(err) => Err(err),
        }
    }

    /// Open a cell. A no-op unless the round is being played and the target
    /// is an in-bounds closed, unflagged cell. A mined target reveals every
    /// mine and loses the round; a zero-count target floods; any other
    /// target opens alone. A surviving open is followed by the win check.
    pub fn open(&mut self, row: usize, col: usize)
        requires
            old(self).inv(),
        ensures
            final(self).inv(),
            final(self).board.width == old(self).board.width,
            final(self).board.height == old(self).board.height,
            final(self).mine_count == old(self).mine_count,
            old(self).open_is_noop(row as int, col as int) ==> final(self).unchanged_from(
                *old(self),
            ),
            !old(self).open_is_noop(row as int, col as int) && old(self).board.cell(
                row as int,
                col as int,
            ).is_mined ==> {
                &&& final(self).outcome == GameOutcome::Lost
                &&& forall|r: int, c: int|
                    old(self).board.in_bounds(r, c) ==> {
                        let oc = old(self).board.cell(r, c);
                        let nc = #[trigger] final(self).board.cell(r, c);
                        nc.is_mined == oc.is_mined && nc.is_flagged == oc.is_flagged
                            && nc.adjacent_mine_count == oc.adjacent_mine_count && nc.is_open == (
                        oc.is_open || oc.is_mined)
                    }
            },
            !old(self).open_is_noop(row as int, col as int) && !old(self).board.cell(
                row as int,
                col as int,
            ).is_mined ==> {
                &&& same_except_open(old(self).board, final(self).board)
                &&& opens_monotone(old(self).board, final(self).board)
                &&& final(self).board.cell(row as int, col as int).is_open
                &&& forall|r: int, c: int|
                    newly_opened(old(self).board, final(self).board, r, c)
                        ==> !(#[trigger] final(self).board.cell(r, c)).is_mined && !final(self).board.cell(r, c).is_flagged
                &&& old(self).board.cell(row as int, col as int).adjacent_mine_count != 0
                    ==> forall|r: int, c: int|
                        old(self).board.in_bounds(r, c) && !(r == row as int && c == col as int)
                            ==> (#[trigger] final(self).board.cell(r, c)).is_open == old(self).board.cell(r, c).is_open
                &&& forall|pr: int, pc: int, qr: int, qc: int|
                    #![trigger newly_opened(old(self).board, final(self).board, pr, pc), final(self).board.cell(qr, qc)]
                    newly_opened(old(self).board, final(self).board, pr, pc) && final(self).board.cell(pr, pc).adjacent_mine_count == 0 && adjacent(pr, pc, qr, qc)
                        && final(self).board.in_bounds(qr, qc) && !final(self).board.cell(
                        qr,
                        qc,
                    ).is_flagged ==> final(self).board.cell(qr, qc).is_open
                &&& forall|pr: int, pc: int|
                    #![trigger newly_opened(old(self).board, final(self).board, pr, pc)]
                    newly_opened(old(self).board, final(self).board, pr, pc) ==> zero_reachable(
                        old(self).board,
                        row as int,
                        col as int,
                        pr,
                        pc,
                    )
                &&& forall|pr: int, pc: int|
                    #![trigger newly_opened(old(self).board, final(self).board, pr, pc)]
                    newly_opened(old(self).board, final(self).board, pr, pc) && !(pr == row as int
                        && pc == col as int) ==> exists|qr: int, qc: int|
                        adjacent(pr, pc, qr, qc) && final(self).board.in_bounds(qr, qc) && (
                        #[trigger] final(self).board.cell(qr, qc)).is_open && final(self).board.cell(qr, qc).adjacent_mine_count == 0
                &&& old(self).board.cell(row as int, col as int).adjacent_mine_count == 0
                    ==> forall|pr: int, pc: int, n: nat|
                        #![trigger zero_path(old(self).board, row as int, col as int, pr, pc, n)]
                        zero_path(old(self).board, row as int, col as int, pr, pc, n) && final(self).board.in_bounds(pr, pc) && !old(self).board.cell(pr, pc).is_flagged
                            ==> final(self).board.cell(pr, pc).is_open
                &&& final(self).outcome == (if final(self).board.win_cond() {
                    GameOutcome::Won
                } else {
                    GameOutcome::Playing
                })
            },
    {
        if self.outcome != GameOutcome::Playing {
            return;
        }
        if row >= self.board.height || col >= self.board.width {
            return;
        }
        let cl = self.board.get(row, col);
        if cl.is_open || cl.is_flagged {
            return;
        }
        if cl.is_mined {
            self.board.reveal_all_mines();
            self.outcome = GameOutcome::Lost;
            return;
        }
        if cl.adjacent_mine_count == 0 {
            self.board.reveal_from(row, col);
        } else {
            self.board.open_cell_at(row, col);
        }
        let won = self.board.check_win();
        if won {
            self.outcome = GameOutcome::Won;
        }
        proof {
            lemma_count_mined_pointwise(old(self).board.cells@, self.board.cells@);
            assert forall|r: int, c: int|
                self.board.in_bounds(r, c) && (#[trigger] self.board.cell(r, c)).is_mined
                    implies !self.board.cell(r, c).is_open by {
                lemma_idx_in_range(old(self).board, r, c);
                if newly_opened(old(self).board, self.board, r, c) {
                    assert(!self.board.cell(r, c).is_mined);
                }
            }
            assert forall|pr: int, pc: int|
                #[trigger] newly_opened(old(self).board, self.board, pr, pc) implies
            zero_reachable(old(self).board, row as int, col as int, pr, pc) by {
                if pr == row as int && pc == col as int {
                    assert(zero_path(old(self).board, row as int, col as int, pr, pc, 0));
                    assert(zero_reachable(old(self).board, row as int, col as int, pr, pc));
                }
            }
        }
    }

    /// Toggle the flag on a closed cell. A no-op unless the round is being
    /// played and the target is an in-bounds closed cell; never opens or
    /// closes anything and never changes the outcome.
    pub fn toggle_flag(&mut self, row: usize, col: usize)
        requires
            old(self).inv(),
        ensures
            final(self).inv(),
            final(self).board.width == old(self).board.width,
            final(self).board.height == old(self).board.height,
            final(self).mine_count == old(self).mine_count,
            old(self).toggle_is_noop(row as int, col as int) ==> final(self).unchanged_from(
                *old(self),
            ),
            !old(self).toggle_is_noop(row as int, col as int) ==> old(self).toggle_rel(
                *final(self),
                row as int,
                col as int,
            ),
    {
        if self.outcome != GameOutcome::Playing {
            return;
        }
        if row >= self.board.height || col >= self.board.width {
            return;
        }
        let mut cl = self.board.get(row, col);
        if cl.is_open {
            return;
        }
        cl.is_flagged = !cl.is_flagged;
        let ghost prev = *self;
        proof {
            lemma_idx_in_range(prev.board, row as int, col as int);
        }
        self.board.set(row, col, cl);
        proof {
            assert forall|r2: int, c2: int| prev.board.in_bounds(r2, c2) implies #[trigger] self
                .board.cell(r2, c2) == (if r2 == row as int && c2 == col as int {
                cl
            } else {
                prev.board.cell(r2, c2)
            }) by {
                lemma_idx_in_range(prev.board, r2, c2);
                lemma_idx_injective(prev.board, r2, c2, row as int, col as int);
            }
            assert forall|r2: int, c2: int| self.board.in_bounds(r2, c2) implies (
            #[trigger] self.board.cell(r2, c2)).adjacent_mine_count == self.board.adj_mines(
                r2,
                c2,
            ) by {
                lemma_adj_mines_same(prev.board, self.board, r2, c2);
            }
            lemma_count_mined_pointwise(prev.board.cells@, self.board.cells@);
            assert(!prev.board.win_cond());
            let (wr, wc) = choose|wr: int, wc: int|
                prev.board.in_bounds(wr, wc) && !(#[trigger] prev.board.cell(wr, wc)).is_mined
                    && !prev.board.cell(wr, wc).is_open;
            assert(self.board.cell(wr, wc) == (if wr == row as int && wc == col as int {
                cl
            } else {
                prev.board.cell(wr, wc)
            }));
            assert(!self.board.cell(wr, wc).is_mined && !self.board.cell(wr, wc).is_open);
        }
    }

    /// `chord(r, c)` is ignored: the round is over, the coordinates are out
    /// of bounds, the target cell is not an open numbered cell, or the
    /// flagged-neighbor count differs from the target's adjacency count.
    pub open spec fn chord_is_noop(self, r: int, c: int) -> bool {
        ||| self.outcome != GameOutcome::Playing
        ||| !self.board.in_bounds(r, c)
        ||| !self.board.cell(r, c).is_open
        ||| self.board.cell(r, c).adjacent_mine_count == 0
        ||| self.board.adj_flags(r, c) != self.board.cell(r, c).adjacent_mine_count
    }

    /// Some neighbor of `(r, c)` is a closed, unflagged mine: a matching
    /// chord will hit it and lose the round.
    pub open spec fn chord_hits_mine(self, r: int, c: int) -> bool {
        exists|qr: int, qc: int|
            adjacent(r, c, qr, qc) && self.board.in_bounds(qr, qc) && (#[trigger] self.board.cell(
                qr,
                qc,
            )).is_mined && !self.board.cell(qr, qc).is_open && !self.board.cell(qr, qc).is_flagged
    }

    /// Mass-reveal around an open numbered cell whose flagged-neighbor count
    /// matches its adjacency count: every closed, unflagged neighbor is
    /// opened (with the cascading reveal for zero-count neighbors). Hitting
    /// a closed, unflagged mined neighbor reveals every mine and loses the
    /// round at once; otherwise the win check follows.
    pub fn chord(&mut self, row: usize, col: usize)
        requires
            old(self).inv(),
        ensures
            final(self).inv(),
            final(self).board.width == old(self).board.width,
            final(self).board.height == old(self).board.height,
            final(self).mine_count == old(self).mine_count,
            old(self).chord_is_noop(row as int, col as int) ==> final(self).unchanged_from(
                *old(self),
            ),
            !old(self).chord_is_noop(row as int, col as int) ==> {
                &&& same_except_open(old(self).board, final(self).board)
                &&& opens_monotone(old(self).board, final(self).board)
                &&& (old(self).chord_hits_mine(row as int, col as int) <==> final(self).outcome
                    == GameOutcome::Lost)
                &&& final(self).outcome == GameOutcome::Lost ==> forall|r: int, c: int|
                    final(self).board.in_bounds(r, c) && (#[trigger] final(self).board.cell(
                        r,
                        c,
                    )).is_mined ==> final(self).board.cell(r, c).is_open
                &&& final(self).outcome != GameOutcome::Lost ==> {
                    &&& forall|r: int, c: int|
                        newly_opened(old(self).board, final(self).board, r, c)
                            ==> !(#[trigger] final(self).board.cell(r, c)).is_mined && !final(self).board.cell(r, c).is_flagged
                    &&& forall|qr: int, qc: int|
                        adjacent(row as int, col as int, qr, qc) && old(self).board.in_bounds(
                            qr,
                            qc,
                        ) && !(#[trigger] old(self).board.cell(qr, qc)).is_open && !old(self).board.cell(qr, qc).is_flagged ==> final(self).board.cell(qr, qc).is_open
                    &&& final(self).outcome == (if final(self).board.win_cond() {
                        GameOutcome::Won
                    } else {
                        GameOutcome::Playing
                    })
                }
            },
    {
        if self.outcome != GameOutcome::Playing {
            return;
        }
        if row >= self.board.height || col >= self.board.width {
            return;
        }
        let cl = self.board.get(row, col);
        if !cl.is_open {
            return;
        }
        if cl.adjacent_mine_count == 0 {
            return;
        }
        let flags = self.board.flagged_neighbors(row, col);
        if flags != cl.adjacent_mine_count {
            return;
        }
        let nbrs = neighbors_of(row, col, self.board.width, self.board.height);
        let n = nbrs.len();
        let mut i: usize = 0;
        while i < n
            invariant
                old(self).inv(),
                !old(self).chord_is_noop(row as int, col as int),
                i <= n,
                n == nbrs@.len(),
                forall|k: int| 0 <= k < n ==> adjacent(
                    (#[trigger] nbrs@[k]).0 as int,
                    nbrs@[k].1 as int,
                    row as int,
                    col as int,
                ) && nbrs@[k].0 < old(self).board.height && nbrs@[k].1 < old(self).board.width,
                self.outcome == GameOutcome::Playing,
                self.mine_count == old(self).mine_count,
                self.board.wf(),
                self.board.counts_ok(),
                self.board.width == old(self).board.width,
                self.board.height == old(self).board.height,
                self.board.cells@.len() == old(self).board.cells@.len(),
                count_mined(self.board.cells@) == count_mined(old(self).board.cells@),
                forall|j: int| 0 <= j < self.board.cells@.len() ==> {
                    let oc = old(self).board.cells@[j];
                    let nc = #[trigger] self.board.cells@[j];
                    nc.is_mined == oc.is_mined && nc.is_flagged == oc.is_flagged
                        && nc.adjacent_mine_count == oc.adjacent_mine_count && (oc.is_open
                        ==> nc.is_open)
                },
                forall|r2: int, c2: int|
                    old(self).board.in_bounds(r2, c2) ==> {
                        let oc = old(self).board.cell(r2, c2);
                        let nc = #[trigger] self.board.cell(r2, c2);
                        nc.is_mined == oc.is_mined && nc.is_flagged == oc.is_flagged
                            && nc.adjacent_mine_count == oc.adjacent_mine_count && (oc.is_open
                            ==> nc.is_open)
                    },
                forall|r2: int, c2: int|
                    newly_opened(old(self).board, self.board, r2, c2) ==> !(
                    #[trigger] self.board.cell(r2, c2)).is_mined && !self.board.cell(
                        r2,
                        c2,
                    ).is_flagged,
                forall|k: int| 0 <= k < i ==> {
                    let q = #[trigger] nbrs@[k];
                    let oc = old(self).board.cell(q.0 as int, q.1 as int);
                    !(oc.is_mined && !oc.is_open && !oc.is_flagged) && ((!oc.is_mined
                        && !oc.is_open && !oc.is_flagged) ==> self.board.cell(
                        q.0 as int,
                        q.1 as int,
                    ).is_open)
                },
            decreases n - i,
        {
            let q = nbrs[i];
            let qr = q.0;
            let qc = q.1;
            let qcl = self.board.get(qr, qc);
            if !qcl.is_open && !qcl.is_flagged {
                if qcl.is_mined {
                    proof {
                        let oc = old(self).board.cell(qr as int, qc as int);
                        assert(oc.is_mined && !oc.is_open && !oc.is_flagged);
                        assert(old(self).chord_hits_mine(row as int, col as int));
                    }
                    self.board.reveal_all_mines();
                    self.outcome = GameOutcome::Lost;
                    proof {
                        lemma_count_mined_pointwise(old(self).board.cells@, self.board.cells@);
                    }
                    return;
                }
                let ghost prev = *self;
                if qcl.adjacent_mine_count == 0 {
                    self.board.reveal_from(qr, qc);
                } else {
                    self.board.open_cell_at(qr, qc);
                }
                proof {
                    lemma_count_mined_pointwise(old(self).board.cells@, self.board.cells@);
                    assert forall|r2: int, c2: int|
                        newly_opened(old(self).board, self.board, r2, c2) implies !(
                    #[trigger] self.board.cell(r2, c2)).is_mined && !self.board.cell(
                        r2,
                        c2,
                    ).is_flagged by {
                        if prev.board.cell(r2, c2).is_open {
                            assert(newly_opened(old(self).board, prev.board, r2, c2));
                        } else {
                            assert(newly_opened(prev.board, self.board, r2, c2));
                        }
                    }
                }
            }
            i = i + 1;
        }
        let won = self.board.check_win();
        if won {
            self.outcome = GameOutcome::Won;
        }
        proof {
            if old(self).chord_hits_mine(row as int, col as int) {
                let (hr, hc) = choose|hr: int, hc: int|
                    adjacent(row as int, col as int, hr, hc) && old(self).board.in_bounds(hr, hc)
                        && (#[trigger] old(self).board.cell(hr, hc)).is_mined && !old(self).board.cell(hr, hc).is_open && !old(self).board.cell(hr, hc).is_flagged;
                assert(listed(nbrs@, hr, hc));
                let k = choose|k: int|
                    0 <= k < nbrs@.len() && (#[trigger] nbrs@[k]).0 == hr && nbrs@[k].1 == hc;
                assert(false);
            }
            assert forall|qr: int, qc: int|
                adjacent(row as int, col as int, qr, qc) && old(self).board.in_bounds(qr, qc) && !(
                #[trigger] old(self).board.cell(qr, qc)).is_open && !old(self).board.cell(
                    qr,
                    qc,
                ).is_flagged implies self.board.cell(qr, qc).is_open by {
                assert(listed(nbrs@, qr, qc));
                let k = choose|k: int|
                    0 <= k < nbrs@.len() && (#[trigger] nbrs@[k]).0 == qr && nbrs@[k].1 == qc;
                assert(!old(self).board.cell(qr, qc).is_mined);
            }
            assert forall|r: int, c: int|
                self.board.in_bounds(r, c) && (#[trigger] self.board.cell(r, c)).is_mined
                    implies !self.board.cell(r, c).is_open by {
                lemma_idx_in_range(old(self).board, r, c);
                if newly_opened(old(self).board, self.board, r, c) {
                    assert(!self.board.cell(r, c).is_mined);
                }
            }
        }
    }

    /// Regenerate the board with the same configuration and return the
    /// outcome to `Playing`. Always succeeds: the configuration was checked
    /// when the engine was built.
    pub fn restart(&mut self)
        requires
            old(self).inv(),
        ensures
            final(self).inv(),
            final(self).board.width == old(self).board.width,
            final(self).board.height == old(self).board.height,
            final(self).mine_count == old(self).mine_count,
            final(self).outcome == GameOutcome::Playing,
            final(self).board.all_closed_unflagged(),
            final(self).board.mine_total() == final(self).mine_count,
    {
        let w = self.board.width;
        let h = self.board.height;
        let m = self.mine_count;
        proof {
            vstd::std_specs::vec::axiom_spec_len(&self.board.cells);
        }
        match Board::generate(w, h, m) {
            Ok(b) => {
                proof {
                    lemma_fresh_not_won(b);
                }
                self.board = b;
                self.outcome = GameOutcome::Playing;
            },
            Err(_) => {
                proof {
                    assert(false);
                }
            },
        }
    }
}

impl GameEngine {
    /// The current outcome of the round.
    pub fn outcome(&self) -> (o: GameOutcome)
        ensures
            o == self.outcome,
    {
        self.outcome
    }

    /// Board width.
    pub fn width(&self) -> (w: usize)
        ensures
            w == self.board.width,
    {
        self.board.width
    }

    /// Board height.
    pub fn height(&self) -> (h: usize)
        ensures
            h == self.board.height,
    {
        self.board.height
    }

    /// Read-only snapshot of one cell; `None` off the grid.
    pub fn cell_at(&self, row: usize, col: usize) -> (c: Option<Cell>)
        requires
            self.inv(),
        ensures
            self.board.in_bounds(row as int, col as int) ==> c == Some(
                self.board.cell(row as int, col as int),
            ),
            !self.board.in_bounds(row as int, col as int) ==> c == None::<Cell>,
    {
        if row < self.board.height && col < self.board.width {
            Some(self.board.get(row, col))
        } else {
            None
        }
    }
}

/// The win condition holds exactly when the set of closed cells is exactly
/// the set of mined cells, provided no mine has been opened — which the
/// engine keeps true until a round is lost. Flags play no part.
pub proof fn lemma_win_iff_closed_are_mines(b: Board)
    requires
        b.no_mine_open(),
    ensures
        b.win_cond() <==> (forall|r: int, c: int|
            b.in_bounds(r, c) ==> (!(#[trigger] b.cell(r, c)).is_open <==> b.cell(r, c).is_mined)),
{
    if b.win_cond() {
        assert forall|r: int, c: int| b.in_bounds(r, c) implies (!(#[trigger] b.cell(
            r,
            c,
        )).is_open <==> b.cell(r, c).is_mined) by {
            if !b.cell(r, c).is_mined {
                assert(b.cell(r, c).is_open);
            }
        }
    }
}

/// Toggling the flag of the same closed cell twice restores the engine: the
/// law of flag idempotence.
pub proof fn lemma_toggle_twice_restores(
    e0: GameEngine,
    e1: GameEngine,
    e2: GameEngine,
    r: int,
    c: int,
)
    requires
        e0.toggle_rel(e1, r, c),
        e1.toggle_rel(e2, r, c),
    ensures
        e2.outcome == e0.outcome,
        e2.mine_count == e0.mine_count,
        forall|r2: int, c2: int|
            e0.board.in_bounds(r2, c2) ==> #[trigger] e2.board.cell(r2, c2) == e0.board.cell(
                r2,
                c2,
            ),
{
    assert forall|r2: int, c2: int| e0.board.in_bounds(r2, c2) implies #[trigger] e2.board.cell(
        r2,
        c2,
    ) == e0.board.cell(r2, c2) by {
        let c0 = e0.board.cell(r2, c2);
        let c1 = e1.board.cell(r2, c2);
        let c2c = e2.board.cell(r2, c2);
        assert(c2c.is_mined == c0.is_mined && c2c.is_open == c0.is_open
            && c2c.adjacent_mine_count == c0.adjacent_mine_count && c2c.is_flagged
            == c0.is_flagged);
    }
}

/// Push one position, keeping every earlier listing.
fn push_pos(v: &mut Vec<(usize, usize)>, pr: usize, pc: usize)
    ensures
        final(v)@.len() == old(v)@.len() + 1,
        forall|k: int| 0 <= k < old(v)@.len() ==> #[trigger] final(v)@[k] == old(v)@[k],
        final(v)@[final(v)@.len() - 1] == (pr, pc),
        listed(final(v)@, pr as int, pc as int),
        forall|r2: int, c2: int| #[trigger] listed(old(v)@, r2, c2) ==> listed(final(v)@, r2, c2),
{
    v.push((pr, pc));
    proof {
        let s0 = old(v)@;
        let s1 = v@;
        assert(s1[s1.len() - 1] == (pr, pc));
        assert(listed(s1, pr as int, pc as int));
        assert forall|r2: int, c2: int| #[trigger] listed(s0, r2, c2) implies listed(
            s1,
            r2,
            c2,
        ) by {
            let k = choose|k: int| 0 <= k < s0.len() && (#[trigger] s0[k]).0 == r2 && s0[k].1 == c2;
            assert(s1[k] == s0[k]);
        }
    }
}

/// The in-bounds neighbors of `(r, c)` on a `width` by `height` grid: every
/// entry is an adjacent in-bounds position, and every adjacent in-bounds
/// position is an entry.
fn neighbors_of(r: usize, c: usize, width: usize, height: usize) -> (v: Vec<(usize, usize)>)
    requires
        r < height,
        c < width,
    ensures
        forall|k: int| 0 <= k < v@.len() ==> adjacent(
            (#[trigger] v@[k]).0 as int,
            v@[k].1 as int,
            r as int,
            c as int,
        ) && v@[k].0 < height && v@[k].1 < width,
        forall|qr: int, qc: int|
            adjacent(r as int, c as int, qr, qc) && 0 <= qr < height && 0 <= qc < width ==> listed(
                v@,
                qr,
                qc,
            ),
{
    let mut v: Vec<(usize, usize)> = Vec::new();
    if r > 0 {
        if c > 0 {
            push_pos(&mut v, r - 1, c - 1);
        }
        push_pos(&mut v, r - 1, c);
        if c + 1 < width {
            push_pos(&mut v, r - 1, c + 1);
        }
    }
    if c > 0 {
        push_pos(&mut v, r, c - 1);
    }
    if c + 1 < width {
        push_pos(&mut v, r, c + 1);
    }
    if r + 1 < height {
        if c > 0 {
            push_pos(&mut v, r + 1, c - 1);
        }
        push_pos(&mut v, r + 1, c);
        if c + 1 < width {
            push_pos(&mut v, r + 1, c + 1);
        }
    }
    proof {
        assert forall|qr: int, qc: int|
            adjacent(r as int, c as int, qr, qc) && 0 <= qr < height && 0 <= qc < width implies
        listed(v@, qr, qc) by {
            if qr == r as int - 1 {
                if qc == c as int - 1 {
                    assert(listed(v@, qr, qc));
                } else if qc == c as int {
                    assert(listed(v@, qr, qc));
                } else {
                    assert(qc == c as int + 1);
                    assert(listed(v@, qr, qc));
                }
            } else if qr == r as int {
                if qc == c as int - 1 {
                    assert(listed(v@, qr, qc));
                } else {
                    assert(qc == c as int + 1);
                    assert(listed(v@, qr, qc));
                }
            } else {
                assert(qr == r as int + 1);
                if qc == c as int - 1 {
                    assert(listed(v@, qr, qc));
                } else if qc == c as int {
                    assert(listed(v@, qr, qc));
                } else {
                    assert(qc == c as int + 1);
                    assert(listed(v@, qr, qc));
                }
            }
        }
    }
    v
}

} // verus!

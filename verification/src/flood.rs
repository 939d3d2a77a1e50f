use vstd::prelude::*;

verus! {

use crate::board::Board;
use crate::board::adjacent;
use crate::board::count_closed;
use crate::board::count_mined;
use crate::board::lemma_count_mined_pointwise;
use crate::board::lemma_idx_in_range;
use crate::board::lemma_zero_adj_no_mined_neighbor;
use crate::board::listed;
use crate::board::newly_opened;
use crate::board::same_dims;
use crate::board::zero_path;
use crate::board::zero_reachable;

/// A listed position survives a pop: it is still listed afterwards, or it was
/// the popped (last) entry.
proof fn lemma_listed_after_pop(s: Seq<(usize, usize)>, r: int, c: int)
    requires
        s.len() > 0,
        listed(s, r, c),
    ensures
        listed(s.drop_last(), r, c) || (s[s.len() - 1].0 == r && s[s.len() - 1].1 == c),
{
    let k = choose|k: int| 0 <= k < s.len() && (#[trigger] s[k]).0 == r && s[k].1 == c;
    if k < s.len() - 1 {
        assert(s.drop_last()[k] == s[k]);
    }
}

/// Listing is preserved when a sequence is extended on top.
proof fn lemma_listed_extended(s1: Seq<(usize, usize)>, s2: Seq<(usize, usize)>, r: int, c: int)
    requires
        listed(s1, r, c),
        s1.len() <= s2.len(),
        forall|k: int| 0 <= k < s1.len() ==> #[trigger] s2[k] == s1[k],
    ensures
        listed(s2, r, c),
{
    let k = choose|k: int| 0 <= k < s1.len() && (#[trigger] s1[k]).0 == r && s1[k].1 == c;
    assert(s2[k] == s1[k]);
}

/// `(pr, pc)` touches an open cell of adjacency count zero.
spec fn touches_zero(b: Board, pr: int, pc: int) -> bool {
    exists|qr: int, qc: int|
        adjacent(pr, pc, qr, qc) && b.in_bounds(qr, qc) && (#[trigger] b.cell(qr, qc)).is_open
            && b.cell(qr, qc).adjacent_mine_count == 0
}

/// Every work-list entry is an in-bounds, unmined position, reachable from
/// the reveal target through closed, unflagged zero-count cells of the
/// original board `a`, and is the target itself or touches an open
/// zero-count cell.
#[verifier::opaque]
spec fn stack_ok(a: Board, b: Board, stack: Seq<(usize, usize)>, row: int, col: int) -> bool {
    forall|k: int| 0 <= k < stack.len() ==> {
        let it = #[trigger] stack[k];
        b.in_bounds(it.0 as int, it.1 as int) && !b.cell(it.0 as int, it.1 as int).is_mined
            && zero_reachable(a, row, col, it.0 as int, it.1 as int) && ((it.0 == row && it.1
            == col) || touches_zero(b, it.0 as int, it.1 as int))
    }
}

/// Every cell opened since `a` is unmined and unflagged, is reachable from
/// the reveal target through closed, unflagged zero-count cells of `a`, and
/// is the target itself or touches an open zero-count cell.
#[verifier::opaque]
spec fn opened_ok(a: Board, b: Board, row: int, col: int) -> bool {
    forall|pr: int, pc: int| #![trigger newly_opened(a, b, pr, pc)]
        newly_opened(a, b, pr, pc) ==> !b.cell(pr, pc).is_mined && !b.cell(pr, pc).is_flagged
            && zero_reachable(a, row, col, pr, pc) && ((pr == row && pc == col) || touches_zero(
            b,
            pr,
            pc,
        ))
}

/// Every unflagged in-bounds neighbor of a cell opened since `a` whose count
/// is zero is itself open or still on the work list.
#[verifier::opaque]
spec fn closure_ok(a: Board, b: Board, stack: Seq<(usize, usize)>) -> bool {
    forall|pr: int, pc: int, qr: int, qc: int|
        #![trigger newly_opened(a, b, pr, pc), b.cell(qr, qc)]
        newly_opened(a, b, pr, pc) && b.cell(pr, pc).adjacent_mine_count == 0 && adjacent(
            pr,
            pc,
            qr,
            qc,
        ) && b.in_bounds(qr, qc) && !b.cell(qr, qc).is_flagged ==> b.cell(qr, qc).is_open || listed(
            stack,
            qr,
            qc,
        )
}

/// The board `b` differs from `prev` exactly by the cell at `(r, c)` having
/// been opened.
spec fn one_opened(prev: Board, b: Board, r: int, c: int) -> bool {
    &&& prev.wf()
    &&& b.wf()
    &&& same_dims(prev, b)
    &&& prev.in_bounds(r, c)
    &&& !prev.cell(r, c).is_open
    &&& b.cell(r, c).is_open
    &&& forall|r2: int, c2: int|
        prev.in_bounds(r2, c2) ==> {
            let oc = prev.cell(r2, c2);
            let nc = #[trigger] b.cell(r2, c2);
            nc.is_mined == oc.is_mined && nc.is_flagged == oc.is_flagged
                && nc.adjacent_mine_count == oc.adjacent_mine_count && nc.is_open == (oc.is_open
                || (r2 == r && c2 == c))
        }
}

/// The starting work list of a reveal satisfies all work-list invariants.
proof fn lemma_flood_init(b: Board, stack: Seq<(usize, usize)>, row: usize, col: usize)
    requires
        b.wf(),
        b.in_bounds(row as int, col as int),
        !b.cell(row as int, col as int).is_mined,
        stack.len() == 1,
        stack[0] == (row, col),
    ensures
        stack_ok(b, b, stack, row as int, col as int),
        opened_ok(b, b, row as int, col as int),
        closure_ok(b, b, stack),
        listed(stack, row as int, col as int),
{
    reveal(stack_ok);
    reveal(opened_ok);
    reveal(closure_ok);
    assert(stack[0].0 == row as int && stack[0].1 == col as int);
    assert(zero_path(b, row as int, col as int, row as int, col as int, 0));
}

/// Popping the top entry keeps the work-list invariant, and the popped entry
/// has the properties the invariant records.
proof fn lemma_pop_top(a: Board, b: Board, stack: Seq<(usize, usize)>, row: int, col: int)
    requires
        stack_ok(a, b, stack, row, col),
        stack.len() > 0,
    ensures
        stack_ok(a, b, stack.drop_last(), row, col),
        b.in_bounds(stack.last().0 as int, stack.last().1 as int),
        !b.cell(stack.last().0 as int, stack.last().1 as int).is_mined,
        zero_reachable(a, row, col, stack.last().0 as int, stack.last().1 as int),
        (stack.last().0 == row && stack.last().1 == col) || touches_zero(
            b,
            stack.last().0 as int,
            stack.last().1 as int,
        ),
{
    reveal(stack_ok);
    assert forall|k: int| 0 <= k < stack.drop_last().len() implies {
        let it = #[trigger] stack.drop_last()[k];
        b.in_bounds(it.0 as int, it.1 as int) && !b.cell(it.0 as int, it.1 as int).is_mined
            && zero_reachable(a, row, col, it.0 as int, it.1 as int) && ((it.0 == row && it.1
            == col) || touches_zero(b, it.0 as int, it.1 as int))
    } by {
        assert(stack.drop_last()[k] == stack[k]);
    }
    assert(stack[stack.len() - 1] == stack.last());
}

/// Skipping an already-open or flagged entry keeps the closure invariant.
proof fn lemma_skip(a: Board, b: Board, stack: Seq<(usize, usize)>)
    requires
        closure_ok(a, b, stack),
        stack.len() > 0,
        b.in_bounds(stack.last().0 as int, stack.last().1 as int),
        b.cell(stack.last().0 as int, stack.last().1 as int).is_open || b.cell(
            stack.last().0 as int,
            stack.last().1 as int,
        ).is_flagged,
    ensures
        closure_ok(a, b, stack.drop_last()),
{
    reveal(closure_ok);
    let r = stack.last().0 as int;
    let c = stack.last().1 as int;
    assert forall|pr: int, pc: int, qr: int, qc: int|
        #![trigger newly_opened(a, b, pr, pc), b.cell(qr, qc)]
        newly_opened(a, b, pr, pc) && b.cell(pr, pc).adjacent_mine_count == 0 && adjacent(
            pr,
            pc,
            qr,
            qc,
        ) && b.in_bounds(qr, qc) && !b.cell(qr, qc).is_flagged && !b.cell(
            qr,
            qc,
        ).is_open implies listed(
        stack.drop_last(),
        qr,
        qc,
    ) by {
        assert(b.cell(qr, qc).is_open || listed(stack, qr, qc));
        lemma_listed_after_pop(stack, qr, qc);
        if !listed(stack.drop_last(), qr, qc) {
            assert(qr == r && qc == c);
            assert(false);
        }
    }
}

/// Opening one cell keeps the work-list and opened-cell invariants.
proof fn lemma_after_open(
    a: Board,
    prev: Board,
    b: Board,
    stack: Seq<(usize, usize)>,
    row: int,
    col: int,
    r: int,
    c: int,
)
    requires
        one_opened(prev, b, r, c),
        same_dims(a, prev),
        stack_ok(a, prev, stack, row, col),
        opened_ok(a, prev, row, col),
        !prev.cell(r, c).is_mined,
        !prev.cell(r, c).is_flagged,
        zero_reachable(a, row, col, r, c),
        (r == row && c == col) || touches_zero(prev, r, c),
    ensures
        stack_ok(a, b, stack, row, col),
        opened_ok(a, b, row, col),
{
    reveal(stack_ok);
    reveal(opened_ok);
    assert forall|pr: int, pc: int| prev.in_bounds(pr, pc) && touches_zero(
        prev,
        pr,
        pc,
    ) implies touches_zero(b, pr, pc) by {
        let (qr, qc) = choose|qr: int, qc: int|
            adjacent(pr, pc, qr, qc) && prev.in_bounds(qr, qc) && (#[trigger] prev.cell(
                qr,
                qc,
            )).is_open && prev.cell(qr, qc).adjacent_mine_count == 0;
        assert(b.cell(qr, qc).is_open && b.cell(qr, qc).adjacent_mine_count == 0);
    }
    assert forall|pr: int, pc: int| #[trigger] newly_opened(a, b, pr, pc) implies !b.cell(
        pr,
        pc,
    ).is_mined && !b.cell(pr, pc).is_flagged && zero_reachable(a, row, col, pr, pc) && ((pr == row
        && pc == col) || touches_zero(b, pr, pc)) by {
        if pr == r && pc == c {
            assert(!b.cell(pr, pc).is_mined && !b.cell(pr, pc).is_flagged);
            if !(pr == row && pc == col) {
                assert(touches_zero(prev, r, c));
                assert(touches_zero(b, r, c));
            }
        } else {
            assert(newly_opened(a, prev, pr, pc));
        }
    }
}

/// Opening a cell whose count is not zero keeps the closure invariant: the
/// cell creates no new obligations, and obligations aimed at it are met.
proof fn lemma_closure_open_nonzero(
    a: Board,
    prev: Board,
    b: Board,
    stack: Seq<(usize, usize)>,
    r: int,
    c: int,
)
    requires
        one_opened(prev, b, r, c),
        same_dims(a, prev),
        closure_ok(a, prev, stack),
        stack.len() > 0,
        stack.last().0 == r && stack.last().1 == c,
        b.cell(r, c).adjacent_mine_count != 0,
    ensures
        closure_ok(a, b, stack.drop_last()),
{
    reveal(closure_ok);
    assert forall|pr: int, pc: int, qr: int, qc: int|
        #![trigger newly_opened(a, b, pr, pc), b.cell(qr, qc)]
        newly_opened(a, b, pr, pc) && b.cell(pr, pc).adjacent_mine_count == 0 && adjacent(
            pr,
            pc,
            qr,
            qc,
        ) && b.in_bounds(qr, qc) && !b.cell(qr, qc).is_flagged && !b.cell(
            qr,
            qc,
        ).is_open implies listed(
        stack.drop_last(),
        qr,
        qc,
    ) by {
        assert(!(pr == r && pc == c));
        assert(newly_opened(a, prev, pr, pc));
        assert(prev.cell(qr, qc).is_open || listed(stack, qr, qc));
        lemma_listed_after_pop(stack, qr, qc);
        if !listed(stack.drop_last(), qr, qc) {
            assert(qr == r && qc == c);
            assert(b.cell(qr, qc).is_open);
            assert(false);
        }
    }
}

/// Opening a zero-count cell keeps the closure invariant once all of its
/// in-bounds neighbors have been pushed.
proof fn lemma_closure_open_zero(
    a: Board,
    prev: Board,
    b: Board,
    stack_pre: Seq<(usize, usize)>,
    stack_post: Seq<(usize, usize)>,
    r: int,
    c: int,
)
    requires
        one_opened(prev, b, r, c),
        same_dims(a, prev),
        closure_ok(a, prev, stack_pre),
        stack_pre.len() > 0,
        stack_pre.last().0 == r && stack_pre.last().1 == c,
        stack_post.len() >= stack_pre.len() - 1,
        forall|k: int| 0 <= k < stack_pre.len() - 1 ==> #[trigger] stack_post[k] == stack_pre[k],
        forall|qr: int, qc: int|
            adjacent(r, c, qr, qc) && b.in_bounds(qr, qc) ==> listed(stack_post, qr, qc),
    ensures
        closure_ok(a, b, stack_post),
{
    reveal(closure_ok);
    assert forall|pr: int, pc: int, qr: int, qc: int|
        #![trigger newly_opened(a, b, pr, pc), b.cell(qr, qc)]
        newly_opened(a, b, pr, pc) && b.cell(pr, pc).adjacent_mine_count == 0 && adjacent(
            pr,
            pc,
            qr,
            qc,
        ) && b.in_bounds(qr, qc) && !b.cell(qr, qc).is_flagged && !b.cell(
            qr,
            qc,
        ).is_open implies listed(
        stack_post,
        qr,
        qc,
    ) by {
        if pr == r && pc == c {
            assert(listed(stack_post, qr, qc));
        } else {
            assert(newly_opened(a, prev, pr, pc));
            assert(prev.cell(qr, qc).is_open || listed(stack_pre, qr, qc));
            if prev.cell(qr, qc).is_open {
                assert(b.cell(qr, qc).is_open);
                assert(false);
            } else {
                lemma_listed_after_pop(stack_pre, qr, qc);
                if listed(stack_pre.drop_last(), qr, qc) {
                    assert forall|k: int| 0 <= k < stack_pre.drop_last().len() implies
                        #[trigger] stack_post[k] == stack_pre.drop_last()[k] by {
                        assert(stack_pre.drop_last()[k] == stack_pre[k]);
                    }
                    lemma_listed_extended(stack_pre.drop_last(), stack_post, qr, qc);
                } else {
                    assert(qr == r && qc == c);
                    assert(b.cell(qr, qc).is_open);
                    assert(false);
                }
            }
        }
    }
}

/// Push one in-bounds neighbor of the open zero-count cell `(r, c)` onto the
/// work list, keeping the work-list invariant and every earlier listing.
fn push_neighbor(
    stack: &mut Vec<(usize, usize)>,
    b: &Board,
    r: usize,
    c: usize,
    pr: usize,
    pc: usize,
    target: Ghost<(int, int)>,
    base: Ghost<Board>,
)
    requires
        b.wf(),
        b.counts_ok(),
        b.in_bounds(r as int, c as int),
        b.cell(r as int, c as int).is_open,
        b.cell(r as int, c as int).adjacent_mine_count == 0,
        b.in_bounds(pr as int, pc as int),
        adjacent(pr as int, pc as int, r as int, c as int),
        base@.in_bounds(r as int, c as int),
        !base@.cell(r as int, c as int).is_flagged,
        !base@.cell(r as int, c as int).is_open,
        base@.cell(r as int, c as int).adjacent_mine_count == 0,
        zero_reachable(base@, target@.0, target@.1, r as int, c as int),
        stack_ok(base@, *b, old(stack)@, target@.0, target@.1),
    ensures
        stack_ok(base@, *b, final(stack)@, target@.0, target@.1),
        final(stack)@.len() == old(stack)@.len() + 1,
        forall|k: int| 0 <= k < old(stack)@.len() ==> #[trigger] final(stack)@[k] == old(stack)@[k],
        listed(final(stack)@, pr as int, pc as int),
        forall|r2: int, c2: int|
            #[trigger] listed(old(stack)@, r2, c2) ==> listed(final(stack)@, r2, c2),
{
    stack.push((pr, pc));
    proof {
        let s0 = old(stack)@;
        let s1 = stack@;
        assert(s1[s1.len() - 1] == (pr, pc));
        assert(listed(s1, pr as int, pc as int));
        assert forall|r2: int, c2: int| #[trigger] listed(s0, r2, c2) implies listed(
            s1,
            r2,
            c2,
        ) by {
            lemma_listed_extended(s0, s1, r2, c2);
        }
        assert(b.cell(r as int, c as int).adjacent_mine_count as int == b.adj_mines(
            r as int,
            c as int,
        ));
        lemma_zero_adj_no_mined_neighbor(*b, r as int, c as int, pr as int, pc as int);
        let n = choose|n: nat| zero_path(base@, target@.0, target@.1, r as int, c as int, n);
        assert(zero_path(base@, target@.0, target@.1, pr as int, pc as int, n + 1)) by {
            assert(zero_path(base@, target@.0, target@.1, r as int, c as int, n) && base@.in_bounds(
                r as int,
                c as int,
            ) && !base@.cell(r as int, c as int).is_flagged && !base@.cell(
                r as int,
                c as int,
            ).is_open && base@.cell(r as int, c as int).adjacent_mine_count == 0 && adjacent(
                r as int,
                c as int,
                pr as int,
                pc as int,
            ));
        }
        assert(zero_reachable(base@, target@.0, target@.1, pr as int, pc as int));
        reveal(stack_ok);
        assert forall|k: int| 0 <= k < s1.len() implies {
            let it = #[trigger] s1[k];
            b.in_bounds(it.0 as int, it.1 as int) && !b.cell(it.0 as int, it.1 as int).is_mined
                && zero_reachable(base@, target@.0, target@.1, it.0 as int, it.1 as int) && ((it.0
                == target@.0 && it.1 == target@.1) || touches_zero(*b, it.0 as int, it.1 as int))
        } by {
            if k < s0.len() {
                assert(s1[k] == s0[k]);
            } else {
                assert(s1[k] == (pr, pc));
                assert(touches_zero(*b, pr as int, pc as int));
            }
        }
    }
}

/// Completeness of the reveal: a cell reached from the opened target
/// through closed, unflagged zero-count cells, itself in bounds and
/// unflagged, ends up open. Induction over the path, using the closure of
/// the revealed region.
proof fn lemma_flood_complete(a: Board, b: Board, row: int, col: int, pr: int, pc: int, n: nat)
    requires
        same_dims(a, b),
        forall|r2: int, c2: int|
            a.in_bounds(r2, c2) ==> {
                let oc = a.cell(r2, c2);
                let nc = #[trigger] b.cell(r2, c2);
                nc.is_flagged == oc.is_flagged && nc.adjacent_mine_count == oc.adjacent_mine_count
                    && (oc.is_open ==> nc.is_open)
            },
        forall|p1: int, p2: int, q1: int, q2: int|
            #![trigger newly_opened(a, b, p1, p2), b.cell(q1, q2)]
            newly_opened(a, b, p1, p2) && b.cell(p1, p2).adjacent_mine_count == 0 && adjacent(
                p1,
                p2,
                q1,
                q2,
            ) && b.in_bounds(q1, q2) && !b.cell(q1, q2).is_flagged ==> b.cell(q1, q2).is_open,
        b.in_bounds(row, col),
        b.cell(row, col).is_open,
        zero_path(a, row, col, pr, pc, n),
        b.in_bounds(pr, pc),
        !a.cell(pr, pc).is_flagged,
    ensures
        b.cell(pr, pc).is_open,
    decreases n,
{
    if !(pr == row && pc == col) {
        let (qr, qc) = choose|qr: int, qc: int|
            zero_path(a, row, col, qr, qc, (n - 1) as nat) && a.in_bounds(qr, qc) && !a.cell(
                qr,
                qc,
            ).is_flagged && !a.cell(qr, qc).is_open && a.cell(qr, qc).adjacent_mine_count == 0
                && #[trigger] adjacent(qr, qc, pr, pc);
        lemma_flood_complete(a, b, row, col, qr, qc, (n - 1) as nat);
        assert(newly_opened(a, b, qr, qc));
        assert(b.cell(qr, qc).adjacent_mine_count == 0);
        assert(!b.cell(pr, pc).is_flagged);
    }
}

/// With an empty work list the closure invariant yields the maximality of
/// the revealed region, and the opened-cell invariant its connectivity.
proof fn lemma_flood_final(a: Board, b: Board, stack: Seq<(usize, usize)>, row: int, col: int)
    requires
        stack.len() == 0,
        closure_ok(a, b, stack),
        opened_ok(a, b, row, col),
    ensures
        forall|pr: int, pc: int, qr: int, qc: int|
            #![trigger newly_opened(a, b, pr, pc), b.cell(qr, qc)]
            newly_opened(a, b, pr, pc) && b.cell(pr, pc).adjacent_mine_count == 0 && adjacent(
                pr,
                pc,
                qr,
                qc,
            ) && b.in_bounds(qr, qc) && !b.cell(qr, qc).is_flagged ==> b.cell(qr, qc).is_open,
        forall|pr: int, pc: int| #![trigger newly_opened(a, b, pr, pc)]
            newly_opened(a, b, pr, pc) ==> !b.cell(pr, pc).is_mined && !b.cell(pr, pc).is_flagged,
        forall|pr: int, pc: int| #![trigger newly_opened(a, b, pr, pc)]
            newly_opened(a, b, pr, pc) ==> zero_reachable(a, row, col, pr, pc),
        forall|pr: int, pc: int| #![trigger newly_opened(a, b, pr, pc)]
            newly_opened(a, b, pr, pc) && !(pr == row && pc == col) ==> touches_zero(b, pr, pc),
{
    reveal(closure_ok);
    reveal(opened_ok);
}

impl Board {
    /// Open every mined cell, leaving everything else untouched (the
    /// board-wide reveal performed when a mine is hit).
    pub(crate) fn reveal_all_mines(&mut self)
        requires
            old(self).wf(),
        ensures
            final(self).wf(),
            same_dims(*old(self), *final(self)),
            count_mined(final(self).cells@) == count_mined(old(self).cells@),
            forall|i: int| 0 <= i < final(self).cells@.len() ==> {
                let oc = old(self).cells@[i];
                let nc = #[trigger] final(self).cells@[i];
                nc.is_mined == oc.is_mined && nc.is_flagged == oc.is_flagged
                    && nc.adjacent_mine_count == oc.adjacent_mine_count
                    && nc.is_open == (oc.is_open || oc.is_mined)
            },
            forall|r: int, c: int|
                old(self).in_bounds(r, c) ==> {
                    let oc = old(self).cell(r, c);
                    let nc = #[trigger] final(self).cell(r, c);
                    nc.is_mined == oc.is_mined && nc.is_flagged == oc.is_flagged
                        && nc.adjacent_mine_count == oc.adjacent_mine_count
                        && nc.is_open == (oc.is_open || oc.is_mined)
                },
            old(self).counts_ok() ==> final(self).counts_ok(),
    {
        let n = self.cells.len();
        let mut i: usize = 0;
        while i < n
            invariant
                i <= n,
                self.wf(),
                n == self.cells@.len(),
                same_dims(*old(self), *self),
                forall|j: int| 0 <= j < self.cells@.len() ==> {
                    let oc = old(self).cells@[j];
                    let nc = #[trigger] self.cells@[j];
                    nc.is_mined == oc.is_mined && nc.is_flagged == oc.is_flagged
                        && nc.adjacent_mine_count == oc.adjacent_mine_count
                        && nc.is_open == (oc.is_open || (j < i && oc.is_mined))
                },
            decreases n - i,
        {
            let cl = self.cells[i];
            if cl.is_mined && !cl.is_open {
                let mut ncl = cl;
                ncl.is_open = true;
                self.cells[i] = ncl;
            }
            i = i + 1;
        }
        proof {
            lemma_count_mined_pointwise(old(self).cells@, self.cells@);
            assert forall|r: int, c: int| old(self).in_bounds(r, c) implies {
                let oc = old(self).cell(r, c);
                let nc = #[trigger] self.cell(r, c);
                nc.is_mined == oc.is_mined && nc.is_flagged == oc.is_flagged
                    && nc.adjacent_mine_count == oc.adjacent_mine_count && nc.is_open == (oc.is_open
                    || oc.is_mined)
            } by {
                lemma_idx_in_range(*old(self), r, c);
            }
            if old(self).counts_ok() {
                assert forall|r: int, c: int| self.in_bounds(r, c) implies (#[trigger] self.cell(
                    r,
                    c,
                )).adjacent_mine_count == self.adj_mines(r, c) by {
                    crate::board::lemma_adj_mines_same(*old(self), *self, r, c);
                }
            }
        }
    }

    /// Whether the round is won: every non-mined cell is open.
    pub fn check_win(&self) -> (w: bool)
        requires
            self.wf(),
        ensures
            w == self.win_cond(),
    {
        let n = self.cells.len();
        let mut i: usize = 0;
        while i < n
            invariant
                i <= n,
                self.wf(),
                n == self.cells@.len(),
                forall|j: int| 0 <= j < i
                    ==> !(#[trigger] self.cells@[j]).is_mined ==> self.cells@[j].is_open,
            decreases n - i,
        {
            let cl = self.cells[i];
            if !cl.is_mined && !cl.is_open {
                proof {
                    crate::board::lemma_coords_of_index(*self, i as int);
                    let r = i as int / (self.width as int);
                    let c = i as int % (self.width as int);
                    assert(self.cell(r, c) == self.cells@[i as int]);
                }
                return false;
            }
            i = i + 1;
        }
        proof {
            assert forall|r: int, c: int|
                self.in_bounds(r, c) && !(#[trigger] self.cell(r, c)).is_mined implies self.cell(
                r,
                c,
            ).is_open by {
                lemma_idx_in_range(*self, r, c);
            }
        }
        true
    }

    /// The guarded cascading reveal from a closed, unflagged, unmined cell of
    /// adjacency count zero. Works through an explicit work list over the
    /// neighbors, skipping cells already open and flagged cells, and never
    /// reaching a mined cell. The postconditions pin the revealed region
    /// down exactly: nothing but openness changes, opening is monotone, the
    /// target opens, no mined or flagged cell is opened, every newly opened
    /// zero-count cell has all its unflagged in-bounds neighbors open (the
    /// region is maximal and stops only at numbered cells and grid edges),
    /// every newly opened cell is reachable from the target through closed,
    /// unflagged zero-count cells, and conversely every in-bounds, unflagged
    /// cell so reachable ends up open.
    #[verifier::rlimit(100)]
    pub(crate) fn reveal_from(&mut self, row: usize, col: usize)
        requires
            old(self).wf(),
            old(self).counts_ok(),
            old(self).in_bounds(row as int, col as int),
            !old(self).cell(row as int, col as int).is_mined,
            !old(self).cell(row as int, col as int).is_flagged,
            !old(self).cell(row as int, col as int).is_open,
            old(self).cell(row as int, col as int).adjacent_mine_count == 0,
        ensures
            final(self).wf(),
            final(self).counts_ok(),
            same_dims(*old(self), *final(self)),
            count_mined(final(self).cells@) == count_mined(old(self).cells@),
            final(self).cell(row as int, col as int).is_open,
            forall|i: int| 0 <= i < final(self).cells@.len() ==> {
                let oc = old(self).cells@[i];
                let nc = #[trigger] final(self).cells@[i];
                nc.is_mined == oc.is_mined && nc.is_flagged == oc.is_flagged
                    && nc.adjacent_mine_count == oc.adjacent_mine_count
                    && (oc.is_open ==> nc.is_open)
            },
            forall|r: int, c: int|
                old(self).in_bounds(r, c) ==> {
                    let oc = old(self).cell(r, c);
                    let nc = #[trigger] final(self).cell(r, c);
                    nc.is_mined == oc.is_mined && nc.is_flagged == oc.is_flagged
                        && nc.adjacent_mine_count == oc.adjacent_mine_count && (oc.is_open
                        ==> nc.is_open)
                },
            forall|pr: int, pc: int|
                #![trigger newly_opened(*old(self), *final(self), pr, pc)]
                newly_opened(*old(self), *final(self), pr, pc)
                    ==> !final(self).cell(pr, pc).is_mined && !final(self).cell(pr, pc).is_flagged,
            forall|pr: int, pc: int, qr: int, qc: int|
                #![trigger newly_opened(*old(self), *final(self), pr, pc), final(self).cell(qr, qc)]
                newly_opened(*old(self), *final(self), pr, pc) && final(self).cell(
                    pr,
                    pc,
                ).adjacent_mine_count == 0 && adjacent(pr, pc, qr, qc) && final(self).in_bounds(
                    qr,
                    qc,
                ) && !final(self).cell(qr, qc).is_flagged ==> final(self).cell(qr, qc).is_open,
            forall|pr: int, pc: int|
                #![trigger newly_opened(*old(self), *final(self), pr, pc)]
                newly_opened(*old(self), *final(self), pr, pc) ==> zero_reachable(
                    *old(self),
                    row as int,
                    col as int,
                    pr,
                    pc,
                ),
            forall|pr: int, pc: int|
                #![trigger newly_opened(*old(self), *final(self), pr, pc)]
                newly_opened(*old(self), *final(self), pr, pc) && !(pr == row as int && pc
                    == col as int) ==> exists|qr: int, qc: int|
                    adjacent(pr, pc, qr, qc) && final(self).in_bounds(qr, qc) && (
                    #[trigger] final(self).cell(qr, qc)).is_open && final(self).cell(
                        qr,
                        qc,
                    ).adjacent_mine_count == 0,
            forall|pr: int, pc: int, n: nat|
                #![trigger zero_path(*old(self), row as int, col as int, pr, pc, n)]
                zero_path(*old(self), row as int, col as int, pr, pc, n) && final(self).in_bounds(
                    pr,
                    pc,
                ) && !old(self).cell(pr, pc).is_flagged ==> final(self).cell(pr, pc).is_open,
    {
        let mut stack: Vec<(usize, usize)> = Vec::new();
        stack.push((row, col));
        proof {
            assert(stack@[0] == (row, col));
            lemma_flood_init(*self, stack@, row, col);
        }
        while stack.len() != 0
            invariant
                self.wf(),
                self.counts_ok(),
                old(self).wf(),
                old(self).in_bounds(row as int, col as int),
                !old(self).cell(row as int, col as int).is_flagged,
                same_dims(*old(self), *self),
                forall|i: int| 0 <= i < self.cells@.len() ==> {
                    let oc = old(self).cells@[i];
                    let nc = #[trigger] self.cells@[i];
                    nc.is_mined == oc.is_mined && nc.is_flagged == oc.is_flagged
                        && nc.adjacent_mine_count == oc.adjacent_mine_count && (oc.is_open
                        ==> nc.is_open)
                },
                self.cell(row as int, col as int).is_open || listed(
                    stack@,
                    row as int,
                    col as int,
                ),
                stack_ok(*old(self), *self, stack@, row as int, col as int),
                opened_ok(*old(self), *self, row as int, col as int),
                closure_ok(*old(self), *self, stack@),
            decreases count_closed(self.cells@), stack@.len(),
        {
            let ghost stack_pre = stack@;
            let p = match stack.pop() {
                Some(p) => p,
                None => {
                    proof {
                        assert(false);
                    }
                    (0, 0)
                },
            };
            let r = p.0;
            let c = p.1;
            proof {
                assert(stack_pre.last() == p);
                lemma_pop_top(*old(self), *self, stack_pre, row as int, col as int);
            }
            let cl = self.get(r, c);
            if !cl.is_open && !cl.is_flagged {
                let ghost prev = *self;
                self.open_cell_at(r, c);
                proof {
                    lemma_idx_in_range(*old(self), r as int, c as int);
                    assert(old(self).cell(r as int, c as int).is_flagged == prev.cell(
                        r as int,
                        c as int,
                    ).is_flagged && old(self).cell(r as int, c as int).adjacent_mine_count
                        == prev.cell(r as int, c as int).adjacent_mine_count && (old(self).cell(
                        r as int,
                        c as int,
                    ).is_open ==> prev.cell(r as int, c as int).is_open));
                    lemma_after_open(
                        *old(self),
                        prev,
                        *self,
                        stack@,
                        row as int,
                        col as int,
                        r as int,
                        c as int,
                    );
                }
                if cl.adjacent_mine_count == 0 {
                    let ghost stack_base = stack@;
                    let ghost tgt = (row as int, col as int);
                    if r > 0 {
                        if c > 0 {
                            push_neighbor(&mut stack, &*self, r, c, r - 1, c - 1, Ghost(tgt), Ghost(*old(self)));
                        }
                        push_neighbor(&mut stack, &*self, r, c, r - 1, c, Ghost(tgt), Ghost(*old(self)));
                        if c + 1 < self.width {
                            push_neighbor(&mut stack, &*self, r, c, r - 1, c + 1, Ghost(tgt), Ghost(*old(self)));
                        }
                    }
                    if c > 0 {
                        push_neighbor(&mut stack, &*self, r, c, r, c - 1, Ghost(tgt), Ghost(*old(self)));
                    }
                    if c + 1 < self.width {
                        push_neighbor(&mut stack, &*self, r, c, r, c + 1, Ghost(tgt), Ghost(*old(self)));
                    }
                    if r + 1 < self.height {
                        if c > 0 {
                            push_neighbor(&mut stack, &*self, r, c, r + 1, c - 1, Ghost(tgt), Ghost(*old(self)));
                        }
                        push_neighbor(&mut stack, &*self, r, c, r + 1, c, Ghost(tgt), Ghost(*old(self)));
                        if c + 1 < self.width {
                            push_neighbor(&mut stack, &*self, r, c, r + 1, c + 1, Ghost(tgt), Ghost(*old(self)));
                        }
                    }
                    proof {
                        assert forall|qr: int, qc: int|
                            adjacent(r as int, c as int, qr, qc) && self.in_bounds(
                                qr,
                                qc,
                            ) implies listed(stack@, qr, qc) by {
                            if qr == r as int - 1 {
                                if qc == c as int - 1 {
                                    assert(listed(stack@, qr, qc));
                                } else if qc == c as int {
                                    assert(listed(stack@, qr, qc));
                                } else {
                                    assert(qc == c as int + 1);
                                    assert(listed(stack@, qr, qc));
                                }
                            } else if qr == r as int {
                                if qc == c as int - 1 {
                                    assert(listed(stack@, qr, qc));
                                } else {
                                    assert(qc == c as int + 1);
                                    assert(listed(stack@, qr, qc));
                                }
                            } else {
                                assert(qr == r as int + 1);
                                if qc == c as int - 1 {
                                    assert(listed(stack@, qr, qc));
                                } else if qc == c as int {
                                    assert(listed(stack@, qr, qc));
                                } else {
                                    assert(qc == c as int + 1);
                                    assert(listed(stack@, qr, qc));
                                }
                            }
                        }
                        lemma_closure_open_zero(
                            *old(self),
                            prev,
                            *self,
                            stack_pre,
                            stack@,
                            r as int,
                            c as int,
                        );
                        if !self.cell(row as int, col as int).is_open {
                            lemma_listed_after_pop(stack_pre, row as int, col as int);
                            assert forall|k: int| 0 <= k < stack_pre.drop_last().len() implies
                                #[trigger] stack@[k] == stack_pre.drop_last()[k] by {
                                assert(stack_pre.drop_last()[k] == stack_pre[k]);
                            }
                            if listed(stack_pre.drop_last(), row as int, col as int) {
                                lemma_listed_extended(
                                    stack_pre.drop_last(),
                                    stack@,
                                    row as int,
                                    col as int,
                                );
                            }
                        }
                    }
                } else {
                    proof {
                        lemma_closure_open_nonzero(
                            *old(self),
                            prev,
                            *self,
                            stack_pre,
                            r as int,
                            c as int,
                        );
                        if !self.cell(row as int, col as int).is_open {
                            lemma_listed_after_pop(stack_pre, row as int, col as int);
                        }
                    }
                }
            } else {
                proof {
                    lemma_skip(*old(self), *self, stack_pre);
                    if !self.cell(row as int, col as int).is_open {
                        lemma_listed_after_pop(stack_pre, row as int, col as int);
                        if !listed(stack@, row as int, col as int) {
                            assert(r == row && c == col);
                            lemma_idx_in_range(*old(self), row as int, col as int);
                            assert(self.cells@[old(self).idx(row as int, col as int)].is_flagged
                                == old(self).cells@[old(self).idx(row as int, col as int)].is_flagged);
                            assert(!self.cell(row as int, col as int).is_flagged);
                            assert(false);
                        }
                    }
                }
            }
        }
        proof {
            lemma_flood_final(*old(self), *self, stack@, row as int, col as int);
            lemma_count_mined_pointwise(old(self).cells@, self.cells@);
            assert forall|r: int, c: int| old(self).in_bounds(r, c) implies {
                let oc = old(self).cell(r, c);
                let nc = #[trigger] self.cell(r, c);
                nc.is_mined == oc.is_mined && nc.is_flagged == oc.is_flagged
                    && nc.adjacent_mine_count == oc.adjacent_mine_count && (oc.is_open
                    ==> nc.is_open)
            } by {
                lemma_idx_in_range(*old(self), r, c);
            }
            assert forall|pr: int, pc: int, n: nat|
                #![trigger zero_path(*old(self), row as int, col as int, pr, pc, n)]
                zero_path(*old(self), row as int, col as int, pr, pc, n) && self.in_bounds(
                    pr,
                    pc,
                ) && !old(self).cell(pr, pc).is_flagged implies self.cell(pr, pc).is_open by {
                lemma_flood_complete(
                    *old(self),
                    *self,
                    row as int,
                    col as int,
                    pr,
                    pc,
                    n,
                );
            }
        }
    }
}

} // verus!

//! Why the search ends: each step moves the grid forward in the order in
//! which the search goes through the fillings.

use vstd::prelude::*;
use crate::cells::{choices_wf, Choice};
use crate::search_model::lemma_digit_list_short;

verus! {

/// The weight of position `i`: eleven times that of the position after it.
pub open spec fn weight(i: int) -> nat
    decreases 80 - i,
{
    if i >= 80 {
        1
    } else {
        11 * weight(i + 1)
    }
}

/// The choices of the first `n` cells read as one number, the first cell
/// weighing most.
pub open spec fn rank(cur: Seq<Choice>, n: int) -> nat
    decreases n,
{
    if n <= 0 {
        0
    } else {
        rank(cur, n - 1) + cur[n - 1].tried() * weight(n - 1)
    }
}

/// How far the search has come with `edge` cells resolved. Going back
/// counts as having gone through all that lies beyond the resolved cells.
pub open spec fn progress(cur: Seq<Choice>, edge: int, backtrack: bool) -> int {
    if backtrack {
        rank(cur, edge) + weight(edge - 1) - 1
    } else {
        rank(cur, edge) as int
    }
}

/// How far the search is from the end of its order.
pub open spec fn remaining(cur: Seq<Choice>, edge: int, backtrack: bool) -> int {
    weight(-1) - progress(cur, edge, backtrack)
}

/// Every weight is positive.
pub proof fn lemma_weight_positive(i: int)
    ensures
        weight(i) >= 1,
    decreases 80 - i,
{
    if i < 80 {
        lemma_weight_positive(i + 1);
    }
}

/// A cell has gone through at most nine candidates.
pub proof fn lemma_tried_bound(c: Choice)
    requires
        c.wf(),
    ensures
        c.tried() <= 9,
{
    match c {
        Choice::Filled(_, p) => {
            lemma_digit_list_short(p);
        },
        _ => {},
    }
}

/// The choices of the first `n` cells weigh less than one step at the
/// position before them.
pub proof fn lemma_rank_bound(cur: Seq<Choice>, n: int)
    requires
        choices_wf(cur),
        0 <= n <= 81,
    ensures
        rank(cur, n) + weight(n - 1) <= weight(-1),
    decreases n,
{
    if n > 0 {
        lemma_rank_bound(cur, n - 1);
        lemma_tried_bound(cur[n - 1]);
        let t = cur[n - 1].tried() as int;
        let w = weight(n - 1) as int;
        assert(t * w + w <= 11 * w) by (nonlinear_arith)
            requires
                0 <= t <= 9,
                0 <= w,
        ;
    }
}

/// The rank of the first `n` cells depends on those cells only.
pub proof fn lemma_rank_prefix(a: Seq<Choice>, b: Seq<Choice>, n: int)
    requires
        forall|i: int| 0 <= i < n ==> a[i] == b[i],
    ensures
        rank(a, n) == rank(b, n),
    decreases n,
{
    if n > 0 {
        lemma_rank_prefix(a, b, n - 1);
    }
}

/// The search is never beyond the end of its order.
pub proof fn lemma_remaining_bound(cur: Seq<Choice>, edge: int, backtrack: bool)
    requires
        choices_wf(cur),
        0 <= edge <= 81,
    ensures
        remaining(cur, edge, backtrack) >= 0,
{
    lemma_rank_bound(cur, edge);
}

/// Choosing a later candidate at `idx` and going on moves the search
/// forward.
pub proof fn lemma_advance(prev: Seq<Choice>, next: Seq<Choice>, idx: int, backtrack: bool)
    requires
        0 <= idx < 81,
        choices_wf(prev),
        choices_wf(next),
        forall|i: int| 0 <= i < idx ==> prev[i] == next[i],
        next[idx].tried() > if backtrack {
            prev[idx].tried()
        } else {
            0
        },
    ensures
        remaining(next, idx + 1, false) < remaining(
            prev,
            if backtrack {
                idx + 1
            } else {
                idx
            },
            backtrack,
        ),
{
    lemma_rank_prefix(prev, next, idx);
    let w = weight(idx) as int;
    let a = prev[idx].tried() as int;
    let b = next[idx].tried() as int;
    lemma_weight_positive(idx);
    if backtrack {
        assert(b * w >= a * w + w) by (nonlinear_arith)
            requires
                b >= a + 1,
                w >= 1,
        ;
    } else {
        assert(b * w >= 1) by (nonlinear_arith)
            requires
                b >= 1,
                w >= 1,
        ;
    }
}

/// Giving up on position `idx` and going back moves the search forward.
pub proof fn lemma_retreat(prev: Seq<Choice>, next: Seq<Choice>, idx: int, backtrack: bool)
    requires
        0 <= idx < 81,
        choices_wf(prev),
        choices_wf(next),
        forall|i: int| 0 <= i < idx ==> prev[i] == next[i],
    ensures
        remaining(next, idx, true) < remaining(
            prev,
            if backtrack {
                idx + 1
            } else {
                idx
            },
            backtrack,
        ),
{
    lemma_rank_prefix(prev, next, idx);
    lemma_tried_bound(prev[idx]);
    let w = weight(idx) as int;
    let a = prev[idx].tried() as int;
    lemma_weight_positive(idx);
    assert(weight(idx - 1) == 11 * w);
    if backtrack {
        assert(a * w + w < 11 * w) by (nonlinear_arith)
            requires
                0 <= a <= 9,
                w >= 1,
        ;
    }
}

} // verus!

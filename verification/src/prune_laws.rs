//! What a propagation step keeps true: it brings the grid closer to being
//! settled whenever it reports a change, and it loses no solution.

use vstd::prelude::*;
use crate::cells::{narrowings_wf, Narrowing};
use crate::geometry::{block_seq, lemma_block_cell_in_unit, unit_cell, unit_of};
use crate::lists::lemma_filter_keeps_order;
use crate::prune::{
    after_hidden, after_singles, after_strike, any_hidden, any_loss, any_single, block_wf,
    first_hidden, grid_narrows_to, lemma_first_hidden_range, lemma_hidden_narrow,
    lemma_pruned_narrows, lemma_reports_by_steps, lemma_singles_narrow, lemma_strike_narrow,
    occurrences, prune_reports, pruned, settle_hidden, settled_digits, touches,
};
use crate::rules::{consistent, filled, lemma_unit_holds_digit, unit_distinct};

verus! {

/// The slack of the first `n` cells together.
pub open spec fn slack_upto(g: Seq<Narrowing>, n: int) -> nat
    decreases n,
{
    if n <= 0 {
        0
    } else {
        slack_upto(g, n - 1) + g[n - 1].slack()
    }
}

/// How far the grid is from being settled: the slack of all its cells.
pub open spec fn total_slack(g: Seq<Narrowing>) -> nat {
    slack_upto(g, g.len() as int)
}

/// Every cell of the grid allows the digit that `s` has at its position.
pub open spec fn admits_all(g: Seq<Narrowing>, s: Seq<u8>) -> bool {
    forall|i: int| 0 <= i < 81 ==> (#[trigger] g[i]).admits(s[i])
}

/// Narrowing a grid does not raise its slack.
pub proof fn lemma_slack_falls(g: Seq<Narrowing>, h: Seq<Narrowing>, n: int)
    requires
        grid_narrows_to(g, h),
        0 <= n <= g.len(),
    ensures
        slack_upto(h, n) <= slack_upto(g, n),
    decreases n,
{
    if n > 0 {
        lemma_slack_falls(g, h, n - 1);
        assert(g[n - 1].narrows_to(h[n - 1]));
    }
}

/// Narrowing a grid lowers its slack when it lowers the slack of a cell.
pub proof fn lemma_slack_falls_strictly(g: Seq<Narrowing>, h: Seq<Narrowing>, n: int, w: int)
    requires
        grid_narrows_to(g, h),
        0 <= w < n <= g.len(),
        h[w].slack() < g[w].slack(),
    ensures
        slack_upto(h, n) < slack_upto(g, n),
    decreases n,
{
    assert(g[n - 1].narrows_to(h[n - 1]));
    if w == n - 1 {
        lemma_slack_falls(g, h, n - 1);
    } else {
        lemma_slack_falls_strictly(g, h, n - 1, w);
    }
}

/// A propagation step that reports a change lowers the slack of the grid.
pub proof fn lemma_prune_progress(g: Seq<Narrowing>, block: Seq<usize>)
    requires
        narrowings_wf(g),
        block_wf(block),
    ensures
        total_slack(pruned(g, block)) <= total_slack(g),
        prune_reports(g, block) ==> total_slack(pruned(g, block)) < total_slack(g),
{
    let g1 = after_singles(g, block);
    let g2 = after_hidden(g1, block);
    let g3 = after_strike(g2, block);
    lemma_singles_narrow(g, block);
    lemma_hidden_narrow(g1, block);
    lemma_strike_narrow(g2, block);
    lemma_pruned_narrows(g, block);
    lemma_slack_falls(g, g3, 81);
    lemma_reports_by_steps(g, block);
    if any_single(g, block) {
        let j = choose|j: int| 0 <= j < block.len() && (#[trigger] g[block[j] as int]).is_single();
        let i = block[j] as int;
        assert(touches(block, i));
        assert(g[i].narrows_to(g1[i]));
        assert(g1[i].narrows_to(g2[i]));
        assert(g2[i].narrows_to(g3[i]));
        lemma_slack_falls_strictly(g, g3, 81, i);
    } else if any_hidden(g1, block) {
        let j = choose|j: int|
            0 <= j < block.len() && settle_hidden(g1, block, #[trigger] g1[block[j] as int])
                != g1[block[j] as int];
        let i = block[j] as int;
        assert(touches(block, i));
        assert(g[i].narrows_to(g1[i]));
        assert(g2[i].narrows_to(g3[i]));
        lemma_slack_falls_strictly(g, g3, 81, i);
    } else if any_loss(g2, block) {
        let gone = settled_digits(g2, block);
        let j = choose|j: int| 0 <= j < block.len() && (#[trigger] g2[block[j] as int]).loses(gone);
        let i = block[j] as int;
        assert(touches(block, i));
        assert(g[i].narrows_to(g1[i]));
        assert(g1[i].narrows_to(g2[i]));
        assert(g2[i].wf());
        match g2[i] {
            Narrowing::Open(p) => {
                lemma_filter_keeps_order(p, |d: u8| !gone.contains(d));
            },
            Narrowing::Fixed(_) => {},
        }
        lemma_slack_falls_strictly(g, g3, 81, i);
    }
}

/// A digit that two cells of the block allow is counted at least twice.
pub proof fn lemma_occurrences_count(
    g: Seq<Narrowing>,
    block: Seq<usize>,
    d: u8,
    n: int,
    j1: int,
    j2: int,
)
    requires
        0 <= j1 < n <= block.len(),
        0 <= j2 < n,
        g[block[j1] as int].admits(d),
        g[block[j2] as int].admits(d),
    ensures
        occurrences(g, block, d, n) >= 1,
        j1 != j2 ==> occurrences(g, block, d, n) >= 2,
    decreases n,
{
    if j1 < n - 1 && j2 < n - 1 {
        lemma_occurrences_count(g, block, d, n - 1, j1, j2);
    } else if j1 < n - 1 {
        lemma_occurrences_count(g, block, d, n - 1, j1, j1);
    } else if j2 < n - 1 {
        lemma_occurrences_count(g, block, d, n - 1, j2, j2);
    }
}

/// Block `b` lists nine distinct positions of the grid.
pub proof fn lemma_block_seq_wf(b: int)
    requires
        0 <= b < 27,
    ensures
        block_wf(block_seq(b)),
        block_seq(b).len() == 9,
{
    let kind = b / 9;
    let k = b % 9;
    let block = block_seq(b);
    assert forall|i: int| 0 <= i < 9 implies #[trigger] block[i] < 81 && block[i] == unit_cell(
        kind,
        k,
        i,
    ) by {
        lemma_block_cell_in_unit(kind, k, i);
    }
    assert forall|i: int, j: int| 0 <= i < 9 && 0 <= j < 9 && i != j implies block[i]
        != block[j] by {
        lemma_block_cell_in_unit(kind, k, i);
        lemma_block_cell_in_unit(kind, k, j);
    }
}

/// A propagation step on one of the 27 blocks loses no solution: a full,
/// consistent grid of digits that the cells allowed before the step is
/// allowed after it.
pub proof fn lemma_pruned_sound(g: Seq<Narrowing>, b: int, s: Seq<u8>)
    requires
        narrowings_wf(g),
        0 <= b < 27,
        filled(s),
        consistent(s),
        admits_all(g, s),
    ensures
        admits_all(pruned(g, block_seq(b)), s),
{
    let kind = b / 9;
    let k = b % 9;
    let block = block_seq(b);
    lemma_block_seq_wf(b);
    let g1 = after_singles(g, block);
    let g2 = after_hidden(g1, block);
    let g3 = after_strike(g2, block);
    lemma_singles_narrow(g, block);
    lemma_hidden_narrow(g1, block);
    assert(unit_distinct(s, kind, k));
    assert forall|j: int| 0 <= j < 9 implies #[trigger] block[j] == unit_cell(kind, k, j) && 0
        <= unit_cell(kind, k, j) < 81 && unit_of(kind, unit_cell(kind, k, j)) == k by {
        lemma_block_cell_in_unit(kind, k, j);
    }
    assert forall|i: int| 0 <= i < 81 implies (#[trigger] g1[i]).admits(s[i]) by {
        assert(g[i].admits(s[i]));
        match g[i] {
            Narrowing::Open(p) => {
                if p.len() == 1 {
                    let m = choose|m: int| 0 <= m < p.len() && p[m] == s[i];
                    assert(m == 0);
                }
            },
            Narrowing::Fixed(_) => {},
        }
    }
    assert forall|i: int| 0 <= i < 81 implies (#[trigger] g2[i]).admits(s[i]) by {
        assert(g1[i].admits(s[i]));
        assert(g1[i].wf());
        if touches(block, i) {
            let j = choose|j: int| 0 <= j < 9 && j < block.len() && #[trigger] block[j] == i;
            match g1[i] {
                Narrowing::Open(p) => {
                    lemma_first_hidden_range(g1, block, p, 0);
                    let h = first_hidden(g1, block, p, 0);
                    if h < p.len() {
                        let d = p[h];
                        assert(p.contains(d));
                        lemma_unit_holds_digit(s, kind, k, d);
                        let w = choose|w: int|
                            0 <= w < 9 && s[#[trigger] unit_cell(kind, k, w)] == d;
                        assert(block[w] == unit_cell(kind, k, w));
                        assert(g1[block[w] as int].admits(d));
                        assert(g1[block[j] as int].admits(d));
                        lemma_occurrences_count(g1, block, d, 9, j, w);
                        assert(w == j);
                    }
                },
                Narrowing::Fixed(_) => {},
            }
        }
    }
    let gone = settled_digits(g2, block);
    assert forall|i: int| 0 <= i < 81 implies (#[trigger] g3[i]).admits(s[i]) by {
        assert(g2[i].admits(s[i]));
        assert(g2[i].wf());
        if touches(block, i) {
            let j = choose|j: int| 0 <= j < 9 && j < block.len() && #[trigger] block[j] == i;
            match g2[i] {
                Narrowing::Open(p) => {
                    lemma_filter_keeps_order(p, |d: u8| !gone.contains(d));
                    if gone.contains(s[i]) {
                        let w = choose|w: int|
                            0 <= w < block.len() && w < block.len() && #[trigger] g2[block[w] as int]
                                == Narrowing::Fixed(s[i]);
                        assert(g2[block[w] as int].admits(s[block[w] as int]));
                        assert(block[w] == unit_cell(kind, k, w));
                        assert(block[j] == unit_cell(kind, k, j));
                        assert(w != j);
                        lemma_block_cell_in_unit(kind, k, w);
                        lemma_block_cell_in_unit(kind, k, j);
                        assert(block[w] != block[j]);
                        assert(false);
                    }
                },
                Narrowing::Fixed(_) => {},
            }
        }
    }
}

} // verus!

//! Propagation to a fixed point: propagation steps on all 27 blocks, again
//! and again until a full pass reports no change.

use vstd::prelude::*;
use crate::cells::{narrowings, narrowings_wf, Narrowing, PruneCell};
use crate::geometry::{block_seq, blocks};
use crate::prune::{grid_narrows_to, lemma_narrows_chain, lemma_pruned_narrows, prune, prune_reports, pruned};
use crate::prune_laws::{
    admits_all, lemma_block_seq_wf, lemma_prune_progress, lemma_pruned_sound, total_slack,
};
use crate::rules::{consistent, filled};

verus! {

/// The grid after propagation steps on the first `n` blocks, in order.
pub open spec fn swept(g: Seq<Narrowing>, n: int) -> Seq<Narrowing>
    decreases n,
{
    if n <= 0 {
        g
    } else {
        pruned(swept(g, n - 1), block_seq(n - 1))
    }
}

/// Whether one of the propagation steps on the first `n` blocks changes
/// the grid it is made on.
pub open spec fn sweep_reports(g: Seq<Narrowing>, n: int) -> bool
    decreases n,
{
    if n <= 0 {
        false
    } else {
        sweep_reports(g, n - 1) || prune_reports(swept(g, n - 1), block_seq(n - 1))
    }
}

/// The grid after full passes over the 27 blocks are repeated until one
/// changes nothing.
pub open spec fn propagated(g: Seq<Narrowing>) -> Seq<Narrowing>
    decreases total_slack(g),
    when narrowings_wf(g)
{
    if sweep_reports(g, 27) {
        proof {
            lemma_swept(g, 27);
        }
        propagated(swept(g, 27))
    } else {
        swept(g, 27)
    }
}

/// Passes over blocks keep the grid well-formed, only narrow it, and lower
/// its slack when they change it.
pub proof fn lemma_swept(g: Seq<Narrowing>, n: int)
    requires
        narrowings_wf(g),
        0 <= n <= 27,
    ensures
        narrowings_wf(swept(g, n)),
        grid_narrows_to(g, swept(g, n)),
        total_slack(swept(g, n)) <= total_slack(g),
        sweep_reports(g, n) ==> total_slack(swept(g, n)) < total_slack(g),
    decreases n,
{
    if n > 0 {
        let h = swept(g, n - 1);
        let block = block_seq(n - 1);
        lemma_swept(g, n - 1);
        lemma_block_seq_wf(n - 1);
        lemma_pruned_narrows(h, block);
        lemma_prune_progress(h, block);
        assert forall|i: int| 0 <= i < 81 implies (#[trigger] g[i]).narrows_to(swept(g, n)[i]) by {
            lemma_narrows_chain(g[i], h[i], pruned(h, block)[i]);
        }
    } else {
        assert forall|i: int| 0 <= i < 81 implies (#[trigger] g[i]).narrows_to(g[i]) by {}
    }
}

/// One pass over the 27 blocks; tells whether a step changed the grid.
fn sweep(grid: &mut Vec<PruneCell>, all: &Vec<Vec<usize>>) -> (changed: bool)
    requires
        narrowings_wf(narrowings(old(grid)@)),
        all@.len() == 27,
        forall|b: int| 0 <= b < 27 ==> (#[trigger] all@[b])@ == block_seq(b),
    ensures
        narrowings(final(grid)@) == swept(narrowings(old(grid)@), 27),
        changed == sweep_reports(narrowings(old(grid)@), 27),
        narrowings_wf(narrowings(final(grid)@)),
{
    let ghost g0 = narrowings(grid@);
    let mut changed: bool = false;
    let mut b: usize = 0;
    while b < 27
        invariant
            b <= 27,
            all@.len() == 27,
            forall|b: int| 0 <= b < 27 ==> (#[trigger] all@[b])@ == block_seq(b),
            narrowings_wf(narrowings(grid@)),
            narrowings(grid@) == swept(g0, b as int),
            changed == sweep_reports(g0, b as int),
        decreases 27 - b,
    {
        let block: Vec<usize> = all[b].clone();
        proof {
            lemma_block_seq_wf(b as int);
            assert(block@ =~= all@[b as int]@);
        }
        let block_changed: bool = prune(grid, block);
        changed = changed || block_changed;
        b += 1;
    }
    changed
}

/// Narrows the grid by propagation until a full pass over the 27 blocks
/// changes nothing.
pub fn propagate(grid: &mut Vec<PruneCell>)
    requires
        narrowings_wf(narrowings(old(grid)@)),
    ensures
        narrowings(final(grid)@) == propagated(narrowings(old(grid)@)),
        narrowings_wf(narrowings(final(grid)@)),
{
    let ghost g0 = narrowings(grid@);
    let all: Vec<Vec<usize>> = blocks();
    let mut changed: bool = true;
    while changed
        invariant
            all@.len() == 27,
            forall|b: int| 0 <= b < 27 ==> (#[trigger] all@[b])@ == block_seq(b),
            narrowings_wf(narrowings(grid@)),
            changed ==> propagated(narrowings(grid@)) == propagated(g0),
            !changed ==> narrowings(grid@) == propagated(g0),
        decreases total_slack(narrowings(grid@)) + if changed { 1nat } else { 0nat },
    {
        proof {
            lemma_swept(narrowings(grid@), 27);
        }
        changed = sweep(grid, &all);
    }
}

/// Passes over blocks lose no solution.
pub proof fn lemma_swept_sound(g: Seq<Narrowing>, n: int, s: Seq<u8>)
    requires
        narrowings_wf(g),
        0 <= n <= 27,
        filled(s),
        consistent(s),
        admits_all(g, s),
    ensures
        admits_all(swept(g, n), s),
    decreases n,
{
    if n > 0 {
        lemma_swept_sound(g, n - 1, s);
        lemma_swept(g, n - 1);
        lemma_pruned_sound(swept(g, n - 1), n - 1, s);
    }
}

/// Propagation keeps the grid well-formed and only narrows it: a settled
/// cell stays as it is, an open cell keeps some of its candidates or
/// becomes settled with one of them.
pub proof fn lemma_propagated_narrows(g: Seq<Narrowing>)
    requires
        narrowings_wf(g),
    ensures
        narrowings_wf(propagated(g)),
        grid_narrows_to(g, propagated(g)),
    decreases total_slack(g),
{
    let h = swept(g, 27);
    lemma_swept(g, 27);
    if sweep_reports(g, 27) {
        lemma_propagated_narrows(h);
        assert forall|i: int| 0 <= i < 81 implies (#[trigger] g[i]).narrows_to(propagated(g)[i]) by {
            lemma_narrows_chain(g[i], h[i], propagated(h)[i]);
        }
    }
}

/// Propagation loses no solution: a full, consistent grid of digits that
/// the cells allow before propagation is allowed after it.
pub proof fn lemma_propagated_sound(g: Seq<Narrowing>, s: Seq<u8>)
    requires
        narrowings_wf(g),
        filled(s),
        consistent(s),
        admits_all(g, s),
    ensures
        admits_all(propagated(g), s),
    decreases total_slack(g),
{
    let h = swept(g, 27);
    lemma_swept(g, 27);
    lemma_swept_sound(g, 27, s);
    if sweep_reports(g, 27) {
        lemma_propagated_sound(h, s);
    }
}

/// Passes of which none changes the grid leave it as it was.
pub proof fn lemma_quiet_sweep(g: Seq<Narrowing>, n: int)
    requires
        0 <= n <= 27,
        !sweep_reports(g, n),
    ensures
        swept(g, n) == g,
    decreases n,
{
    if n > 0 {
        lemma_quiet_sweep(g, n - 1);
        assert(pruned(g, block_seq(n - 1)) =~= g);
    }
}

/// Propagation ends at a fixed point: a further pass over the 27 blocks
/// changes no cell.
pub proof fn lemma_propagated_fixed(g: Seq<Narrowing>)
    requires
        narrowings_wf(g),
    ensures
        !sweep_reports(propagated(g), 27),
        swept(propagated(g), 27) == propagated(g),
    decreases total_slack(g),
{
    if sweep_reports(g, 27) {
        lemma_swept(g, 27);
        lemma_propagated_fixed(swept(g, 27));
    } else {
        lemma_quiet_sweep(g, 27);
    }
}

} // verus!

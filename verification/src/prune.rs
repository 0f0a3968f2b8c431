//! One propagation step on one block: naked singles, hidden singles, and
//! the removal of settled digits from the candidates of the block.

use vstd::prelude::*;
use crate::cells::{narrowings, narrowings_wf, Narrowing, PruneCell};
use crate::lists::{difference, digit_list, lemma_filter_keeps_order, strike};

verus! {

/// Whether one of the first `n` entries of `block` is position `i`.
pub open spec fn touches_upto(block: Seq<usize>, n: int, i: int) -> bool {
    exists|j: int| 0 <= j < n && j < block.len() && #[trigger] block[j] == i
}

/// Whether `block` lists position `i`.
pub open spec fn touches(block: Seq<usize>, i: int) -> bool {
    touches_upto(block, block.len() as int, i)
}

/// A list of distinct positions of the grid.
pub open spec fn block_wf(block: Seq<usize>) -> bool {
    &&& block.no_duplicates()
    &&& forall|j: int| 0 <= j < block.len() ==> #[trigger] block[j] < 81
}

impl Narrowing {
    /// A cell with one candidate left becomes settled with it.
    pub open spec fn settle_single(self) -> Narrowing {
        match self {
            Narrowing::Open(p) => if p.len() == 1 {
                Narrowing::Fixed(p[0])
            } else {
                self
            },
            Narrowing::Fixed(_) => self,
        }
    }

    /// An open cell loses the candidates that `gone` holds.
    pub open spec fn strike(self, gone: Set<u8>) -> Narrowing {
        match self {
            Narrowing::Open(p) => Narrowing::Open(strike(p, gone)),
            Narrowing::Fixed(_) => self,
        }
    }

    /// Whether `strike` would take a candidate from the cell.
    pub open spec fn loses(self, gone: Set<u8>) -> bool {
        match self {
            Narrowing::Open(p) => strike(p, gone) != p,
            Narrowing::Fixed(_) => false,
        }
    }

    /// Whether the cell is open with exactly one candidate.
    pub open spec fn is_single(self) -> bool {
        match self {
            Narrowing::Open(p) => p.len() == 1,
            Narrowing::Fixed(_) => false,
        }
    }
}

/// In how many of the first `n` cells of the block digit `d` may stand.
pub open spec fn occurrences(g: Seq<Narrowing>, block: Seq<usize>, d: u8, n: int) -> nat
    decreases n,
{
    if n <= 0 {
        0
    } else {
        occurrences(g, block, d, n - 1) + if g[block[n - 1] as int].admits(d) {
            1nat
        } else {
            0nat
        }
    }
}

/// Whether digit `d` may stand in exactly one cell of the block.
pub open spec fn once_in_block(g: Seq<Narrowing>, block: Seq<usize>, d: u8) -> bool {
    occurrences(g, block, d, block.len() as int) == 1
}

/// The index, from `k` on, of the first candidate in `p` that may stand
/// in exactly one cell of the block; the length of `p` if there is none.
pub open spec fn first_hidden(g: Seq<Narrowing>, block: Seq<usize>, p: Seq<u8>, k: int) -> int
    decreases p.len() - k,
{
    if k >= p.len() {
        p.len() as int
    } else if k >= 0 && once_in_block(g, block, p[k]) {
        k
    } else if k >= 0 {
        first_hidden(g, block, p, k + 1)
    } else {
        p.len() as int
    }
}

/// An open cell with a candidate that may stand nowhere else in the block
/// becomes settled with the first such candidate.
pub open spec fn settle_hidden(g: Seq<Narrowing>, block: Seq<usize>, c: Narrowing) -> Narrowing {
    match c {
        Narrowing::Open(p) => {
            let k = first_hidden(g, block, p, 0);
            if k < p.len() {
                Narrowing::Fixed(p[k])
            } else {
                c
            }
        },
        Narrowing::Fixed(_) => c,
    }
}

/// The digits settled in one of the first `n` cells of the block.
pub open spec fn settled_upto(g: Seq<Narrowing>, block: Seq<usize>, n: int) -> Set<u8> {
    Set::new(
        |d: u8|
            exists|j: int|
                0 <= j < n && j < block.len() && #[trigger] g[block[j] as int] == Narrowing::Fixed(
                    d,
                ),
    )
}

/// The digits settled in the block.
pub open spec fn settled_digits(g: Seq<Narrowing>, block: Seq<usize>) -> Set<u8> {
    settled_upto(g, block, block.len() as int)
}

/// The grid after the naked singles of the block are settled.
pub open spec fn after_singles(g: Seq<Narrowing>, block: Seq<usize>) -> Seq<Narrowing> {
    Seq::new(
        g.len(),
        |i: int|
            if touches(block, i) {
                g[i].settle_single()
            } else {
                g[i]
            },
    )
}

/// The grid after the hidden singles of the block are settled.
pub open spec fn after_hidden(g: Seq<Narrowing>, block: Seq<usize>) -> Seq<Narrowing> {
    Seq::new(
        g.len(),
        |i: int|
            if touches(block, i) {
                settle_hidden(g, block, g[i])
            } else {
                g[i]
            },
    )
}

/// The grid after the settled digits of the block are taken from the
/// candidates of its open cells.
pub open spec fn after_strike(g: Seq<Narrowing>, block: Seq<usize>) -> Seq<Narrowing> {
    Seq::new(
        g.len(),
        |i: int|
            if touches(block, i) {
                g[i].strike(settled_digits(g, block))
            } else {
                g[i]
            },
    )
}

/// The grid after one propagation step on the block.
pub open spec fn pruned(g: Seq<Narrowing>, block: Seq<usize>) -> Seq<Narrowing> {
    after_strike(after_hidden(after_singles(g, block), block), block)
}

/// Whether the block holds a naked single.
pub open spec fn any_single(g: Seq<Narrowing>, block: Seq<usize>) -> bool {
    exists|j: int| 0 <= j < block.len() && (#[trigger] g[block[j] as int]).is_single()
}

/// Whether a cell of the block holds a candidate that is settled in the block.
pub open spec fn any_loss(g: Seq<Narrowing>, block: Seq<usize>) -> bool {
    exists|j: int|
        0 <= j < block.len() && (#[trigger] g[block[j] as int]).loses(settled_digits(g, block))
}

/// Whether the block holds a hidden single.
pub open spec fn any_hidden(g: Seq<Narrowing>, block: Seq<usize>) -> bool {
    exists|j: int|
        0 <= j < block.len() && settle_hidden(g, block, #[trigger] g[block[j] as int])
            != g[block[j] as int]
}

/// Whether a propagation step on the block changes the grid: a cell
/// becomes settled or loses a candidate.
pub open spec fn prune_reports(g: Seq<Narrowing>, block: Seq<usize>) -> bool {
    exists|i: int| 0 <= i < g.len() && #[trigger] pruned(g, block)[i] != g[i]
}

/// The grid `before` has `f` applied to the cells that the first `j`
/// entries of the block list; applying it to the cell of entry `j` gives a
/// grid that has it applied to the cells of the first `j + 1` entries.
proof fn lemma_touch_next(
    g0: Seq<Narrowing>,
    before: Seq<Narrowing>,
    after: Seq<Narrowing>,
    block: Seq<usize>,
    j: int,
    f: spec_fn(Narrowing) -> Narrowing,
)
    requires
        block_wf(block),
        0 <= j < block.len(),
        g0.len() == 81,
        before.len() == 81,
        after.len() == 81,
        forall|i: int|
            0 <= i < 81 ==> #[trigger] before[i] == if touches_upto(block, j, i) {
                f(g0[i])
            } else {
                g0[i]
            },
        forall|i: int| 0 <= i < 81 && i != block[j] ==> #[trigger] after[i] == before[i],
        after[block[j] as int] == f(g0[block[j] as int]),
    ensures
        forall|i: int|
            0 <= i < 81 ==> #[trigger] after[i] == if touches_upto(block, j + 1, i) {
                f(g0[i])
            } else {
                g0[i]
            },
{
    assert forall|i: int| 0 <= i < 81 implies #[trigger] after[i] == if touches_upto(
        block,
        j + 1,
        i,
    ) {
        f(g0[i])
    } else {
        g0[i]
    } by {
        if i == block[j] {
            assert(block[j] == i);
        } else {
            assert(after[i] == before[i]);
            assert(touches_upto(block, j + 1, i) == touches_upto(block, j, i));
        }
    }
}

/// Settles the naked singles of the block; tells whether there was one.
fn settle_singles(grid: &mut Vec<PruneCell>, block: &Vec<usize>) -> (changed: bool)
    requires
        narrowings_wf(narrowings(old(grid)@)),
        block_wf(block@),
    ensures
        narrowings(final(grid)@) == after_singles(narrowings(old(grid)@), block@),
        changed == any_single(narrowings(old(grid)@), block@),
{
    let ghost g0 = narrowings(grid@);
    let ghost f = |c: Narrowing| c.settle_single();
    let n: usize = block.len();
    let mut changed: bool = false;
    let mut j: usize = 0;
    while j < n
        invariant
            j <= n,
            n == block@.len(),
            block_wf(block@),
            grid@.len() == 81,
            g0.len() == 81,
            f == |c: Narrowing| c.settle_single(),
            forall|i: int|
                0 <= i < 81 ==> #[trigger] narrowings(grid@)[i] == if touches_upto(
                    block@,
                    j as int,
                    i,
                ) {
                    f(g0[i])
                } else {
                    g0[i]
                },
            changed == exists|j2: int| 0 <= j2 < j && (#[trigger] g0[block@[j2] as int]).is_single(),
        decreases n - j,
    {
        let idx: usize = block[j];
        assert(!touches_upto(block@, j as int, idx as int));
        assert(narrowings(grid@)[idx as int] == grid@[idx as int]@);
        let single: Option<u8> = match &grid[idx] {
            PruneCell::Possibilities(v) => if v.len() == 1 {
                Some(v[0])
            } else {
                None
            },
            PruneCell::Fixed(_) => None,
        };
        let ghost before = grid@;
        if let Some(d) = single {
            grid.set(idx, PruneCell::Fixed(d));
            changed = true;
        }
        proof {
            assert(g0[block@[j as int] as int].is_single() == single.is_some());
            lemma_touch_next(g0, narrowings(before), narrowings(grid@), block@, j as int, f);
        }
        j += 1;
    }
    proof {
        assert(narrowings(grid@) =~= after_singles(g0, block@));
    }
    changed
}

/// Counts, for each digit, the cells of the block in which it may stand.
fn count_occurrences(grid: &Vec<PruneCell>, block: &Vec<usize>) -> (counts: Vec<usize>)
    requires
        narrowings_wf(narrowings(grid@)),
        block_wf(block@),
    ensures
        counts@.len() == 10,
        forall|d: u8|
            d < 10 ==> #[trigger] counts@[d as int] == occurrences(
                narrowings(grid@),
                block@,
                d,
                block@.len() as int,
            ),
{
    let ghost g = narrowings(grid@);
    let n: usize = block.len();
    let mut counts: Vec<usize> = Vec::new();
    let mut d: usize = 0;
    while d < 10
        invariant
            d <= 10,
            counts@.len() == d,
            forall|x: int| 0 <= x < d ==> #[trigger] counts@[x] == 0,
        decreases 10 - d,
    {
        counts.push(0);
        d += 1;
    }
    let mut j: usize = 0;
    while j < n
        invariant
            j <= n,
            n == block@.len(),
            block_wf(block@),
            g == narrowings(grid@),
            narrowings_wf(g),
            counts@.len() == 10,
            forall|d: u8| d < 10 ==> #[trigger] counts@[d as int] == occurrences(g, block@, d, j as int),
            forall|d: u8| d < 10 ==> #[trigger] counts@[d as int] <= j,
        decreases n - j,
    {
        let idx: usize = block[j];
        assert(g[idx as int] == grid@[idx as int]@);
        assert(g[idx as int].wf());
        match &grid[idx] {
            PruneCell::Fixed(x) => {
                let at: usize = *x as usize;
                let seen: usize = counts[at];
                assert(counts@[*x as int] <= j);
                counts.set(at, seen + 1);
            },
            PruneCell::Possibilities(v) => {
                assert forall|d: u8| d < 10 implies #[trigger] occurrences(g, block@, d, j as int)
                    <= j by {
                    assert(counts@[d as int] <= j);
                }
                let mut k: usize = 0;
                while k < v.len()
                    invariant
                        k <= v@.len(),
                        j < n,
                        idx < 81,
                        g.len() == 81,
                        digit_list(v@),
                        g[idx as int] == Narrowing::Open(v@),
                        counts@.len() == 10,
                        forall|d: u8|
                            d < 10 ==> #[trigger] counts@[d as int] == occurrences(
                                g,
                                block@,
                                d,
                                j as int,
                            ) + if exists|m: int| 0 <= m < k && v@[m] == d {
                                1nat
                            } else {
                                0nat
                            },
                        forall|d: u8| d < 10 ==> #[trigger] occurrences(g, block@, d, j as int) <= j,
                    decreases v@.len() - k,
                {
                    let x: u8 = v[k];
                    let at: usize = x as usize;
                    let seen: usize = counts[at];
                    assert(counts@[x as int] <= j + 1);
                    assert(!exists|m: int| 0 <= m < k && v@[m] == x);
                    counts.set(at, seen + 1);
                    assert forall|d: u8| d < 10 implies #[trigger] counts@[d as int] == occurrences(
                        g,
                        block@,
                        d,
                        j as int,
                    ) + if exists|m: int| 0 <= m < k + 1 && v@[m] == d {
                        1nat
                    } else {
                        0nat
                    } by {
                        if d == x {
                            assert(v@[k as int] == d);
                        } else {
                            assert((exists|m: int| 0 <= m < k + 1 && v@[m] == d) == (exists|m: int|
                                0 <= m < k && v@[m] == d));
                        }
                    }
                    k += 1;
                }
                assert forall|d: u8| d < 10 implies (v@.contains(d) == exists|m: int|
                    0 <= m < k && v@[m] == d) by {}
            },
        }
        j += 1;
    }
    counts
}

/// The first candidate of `v` that the counts show once in the block.
fn first_hidden_single(
    v: &Vec<u8>,
    counts: &Vec<usize>,
    Ghost(g): Ghost<Seq<Narrowing>>,
    Ghost(block): Ghost<Seq<usize>>,
) -> (pick: Option<u8>)
    requires
        digit_list(v@),
        counts@.len() == 10,
        forall|d: u8|
            d < 10 ==> #[trigger] counts@[d as int] == occurrences(g, block, d, block.len() as int),
    ensures
        settle_hidden(g, block, Narrowing::Open(v@)) == match pick {
            Some(x) => Narrowing::Fixed(x),
            None => Narrowing::Open(v@),
        },
{
    let mut k: usize = 0;
    while k < v.len()
        invariant
            k <= v@.len(),
            digit_list(v@),
            counts@.len() == 10,
            forall|d: u8|
                d < 10 ==> #[trigger] counts@[d as int] == occurrences(
                    g,
                    block,
                    d,
                    block.len() as int,
                ),
            first_hidden(g, block, v@, 0) == first_hidden(g, block, v@, k as int),
        decreases v@.len() - k,
    {
        let x: u8 = v[k];
        if counts[x as usize] == 1 {
            return Some(x);
        }
        k += 1;
    }
    None
}

/// Settles the hidden singles of the block, given the occurrence counts of
/// the block; tells whether there was one.
fn settle_hidden_singles(
    grid: &mut Vec<PruneCell>,
    block: &Vec<usize>,
    counts: &Vec<usize>,
) -> (changed: bool)
    requires
        narrowings_wf(narrowings(old(grid)@)),
        block_wf(block@),
        counts@.len() == 10,
        forall|d: u8|
            d < 10 ==> #[trigger] counts@[d as int] == occurrences(
                narrowings(old(grid)@),
                block@,
                d,
                block@.len() as int,
            ),
    ensures
        narrowings(final(grid)@) == after_hidden(narrowings(old(grid)@), block@),
        changed == any_hidden(narrowings(old(grid)@), block@),
{
    let ghost g0 = narrowings(grid@);
    let ghost f = |c: Narrowing| settle_hidden(g0, block@, c);
    let n: usize = block.len();
    let mut changed: bool = false;
    let mut j: usize = 0;
    while j < n
        invariant
            j <= n,
            n == block@.len(),
            block_wf(block@),
            grid@.len() == 81,
            narrowings_wf(g0),
            counts@.len() == 10,
            forall|d: u8|
                d < 10 ==> #[trigger] counts@[d as int] == occurrences(
                    g0,
                    block@,
                    d,
                    block@.len() as int,
                ),
            f == |c: Narrowing| settle_hidden(g0, block@, c),
            forall|i: int|
                0 <= i < 81 ==> #[trigger] narrowings(grid@)[i] == if touches_upto(
                    block@,
                    j as int,
                    i,
                ) {
                    f(g0[i])
                } else {
                    g0[i]
                },
            changed == exists|j2: int|
                0 <= j2 < j && settle_hidden(g0, block@, #[trigger] g0[block@[j2] as int])
                    != g0[block@[j2] as int],
        decreases n - j,
    {
        let idx: usize = block[j];
        assert(!touches_upto(block@, j as int, idx as int));
        assert(narrowings(grid@)[idx as int] == grid@[idx as int]@);
        assert(g0[idx as int].wf());
        let pick: Option<u8> = match &grid[idx] {
            PruneCell::Possibilities(v) => first_hidden_single(v, counts, Ghost(g0), Ghost(block@)),
            PruneCell::Fixed(_) => None,
        };
        let ghost before = grid@;
        if let Some(x) = pick {
            grid.set(idx, PruneCell::Fixed(x));
            changed = true;
        }
        proof {
            assert((settle_hidden(g0, block@, g0[block@[j as int] as int]) != g0[block@[j as int] as int])
                == pick.is_some());
            lemma_touch_next(g0, narrowings(before), narrowings(grid@), block@, j as int, f);
        }
        j += 1;
    }
    proof {
        assert(narrowings(grid@) =~= after_hidden(g0, block@));
    }
    changed
}

/// Lists the digits settled in the block.
fn settled_list(grid: &Vec<PruneCell>, block: &Vec<usize>) -> (fixed: Vec<u8>)
    requires
        narrowings_wf(narrowings(grid@)),
        block_wf(block@),
    ensures
        fixed@.to_set() == settled_digits(narrowings(grid@), block@),
{
    let ghost g = narrowings(grid@);
    let n: usize = block.len();
    let mut fixed: Vec<u8> = Vec::new();
    let mut j: usize = 0;
    while j < n
        invariant
            j <= n,
            n == block@.len(),
            block_wf(block@),
            g == narrowings(grid@),
            g.len() == 81,
            forall|d: u8| fixed@.contains(d) <==> settled_upto(g, block@, j as int).contains(d),
        decreases n - j,
    {
        let idx: usize = block[j];
        let ghost before = fixed@;
        assert(g[idx as int] == grid@[idx as int]@);
        match &grid[idx] {
            PruneCell::Fixed(x) => {
                fixed.push(*x);
            },
            PruneCell::Possibilities(_) => {},
        }
        proof {
            assert forall|d: u8| fixed@.contains(d) <==> settled_upto(g, block@, j + 1).contains(
                d,
            ) by {
                if fixed@.contains(d) {
                    let m = choose|m: int| 0 <= m < fixed@.len() && fixed@[m] == d;
                    if m < before.len() {
                        assert(before[m] == d);
                        assert(before.contains(d));
                        assert(settled_upto(g, block@, j as int).contains(d));
                        let w = choose|w: int|
                            0 <= w < j && w < block@.len() && #[trigger] g[block@[w] as int]
                                == Narrowing::Fixed(d);
                        assert(g[block@[w] as int] == Narrowing::Fixed(d));
                    } else {
                        assert(g[block@[j as int] as int] == Narrowing::Fixed(d));
                    }
                }
                if settled_upto(g, block@, j + 1).contains(d) {
                    let w = choose|w: int|
                        0 <= w < j + 1 && w < block@.len() && #[trigger] g[block@[w] as int]
                            == Narrowing::Fixed(d);
                    if w < j {
                        assert(g[block@[w] as int] == Narrowing::Fixed(d));
                        assert(settled_upto(g, block@, j as int).contains(d));
                        assert(before.contains(d));
                        let m = choose|m: int| 0 <= m < before.len() && before[m] == d;
                        assert(fixed@[m] == d);
                    } else {
                        assert(fixed@[fixed@.len() - 1] == d);
                    }
                }
            }
        }
        j += 1;
    }
    proof {
        assert(fixed@.to_set() =~= settled_digits(g, block@));
    }
    fixed
}

/// Takes the digits of `fixed` from the candidates of the block's open
/// cells; tells whether a candidate was taken.
fn strike_settled(grid: &mut Vec<PruneCell>, block: &Vec<usize>, fixed: &Vec<u8>) -> (changed: bool)
    requires
        narrowings_wf(narrowings(old(grid)@)),
        block_wf(block@),
        fixed@.to_set() == settled_digits(narrowings(old(grid)@), block@),
    ensures
        narrowings(final(grid)@) == after_strike(narrowings(old(grid)@), block@),
        changed == any_loss(narrowings(old(grid)@), block@),
{
    let ghost g0 = narrowings(grid@);
    let ghost gone = settled_digits(g0, block@);
    let ghost f = |c: Narrowing| c.strike(gone);
    let n: usize = block.len();
    let mut changed: bool = false;
    let mut j: usize = 0;
    while j < n
        invariant
            j <= n,
            n == block@.len(),
            block_wf(block@),
            grid@.len() == 81,
            narrowings_wf(g0),
            gone == settled_digits(g0, block@),
            fixed@.to_set() == gone,
            f == |c: Narrowing| c.strike(gone),
            forall|i: int|
                0 <= i < 81 ==> #[trigger] narrowings(grid@)[i] == if touches_upto(
                    block@,
                    j as int,
                    i,
                ) {
                    f(g0[i])
                } else {
                    g0[i]
                },
            changed == exists|j2: int|
                0 <= j2 < j && (#[trigger] g0[block@[j2] as int]).loses(gone),
        decreases n - j,
    {
        let idx: usize = block[j];
        assert(!touches_upto(block@, j as int, idx as int));
        assert(narrowings(grid@)[idx as int] == grid@[idx as int]@);
        assert(g0[idx as int].wf());
        let ghost before = grid@;
        let mut narrowed: Option<Vec<u8>> = None;
        match &grid[idx] {
            PruneCell::Possibilities(v) => {
                let rest: Vec<u8> = difference(v.as_slice(), fixed.as_slice());
                proof {
                    lemma_filter_keeps_order(v@, |d: u8| !gone.contains(d));
                }
                if rest.len() != v.len() {
                    changed = true;
                }
                narrowed = Some(rest);
            },
            PruneCell::Fixed(_) => {},
        }
        if let Some(rest) = narrowed {
            grid.set(idx, PruneCell::Possibilities(rest));
        }
        proof {
            lemma_touch_next(g0, narrowings(before), narrowings(grid@), block@, j as int, f);
        }
        j += 1;
    }
    proof {
        assert(narrowings(grid@) =~= after_strike(g0, block@));
    }
    changed
}

/// One propagation step on the block `indices`: settles its naked singles,
/// then its hidden singles, then takes the digits settled in the block from
/// the candidates of its open cells. Tells whether a cell of the block was
/// changed.
pub fn prune(grid: &mut Vec<PruneCell>, indices: Vec<usize>) -> (changed: bool)
    requires
        narrowings_wf(narrowings(old(grid)@)),
        block_wf(indices@),
    ensures
        narrowings(final(grid)@) == pruned(narrowings(old(grid)@), indices@),
        changed == prune_reports(narrowings(old(grid)@), indices@),
        narrowings_wf(narrowings(final(grid)@)),
{
    let ghost g0 = narrowings(grid@);
    proof {
        lemma_singles_narrow(g0, indices@);
        lemma_hidden_narrow(after_singles(g0, indices@), indices@);
        lemma_strike_narrow(after_hidden(after_singles(g0, indices@), indices@), indices@);
        lemma_reports_by_steps(g0, indices@);
    }
    let had_single: bool = settle_singles(grid, &indices);
    let counts: Vec<usize> = count_occurrences(grid, &indices);
    let had_hidden: bool = settle_hidden_singles(grid, &indices, &counts);
    let fixed: Vec<u8> = settled_list(grid, &indices);
    let lost: bool = strike_settled(grid, &indices, &fixed);
    had_single || had_hidden || lost
}

/// A propagation step changes the grid exactly when the block holds a
/// naked single, or then a hidden single, or then a candidate that is
/// settled in the block.
pub proof fn lemma_reports_by_steps(g: Seq<Narrowing>, block: Seq<usize>)
    requires
        narrowings_wf(g),
        block_wf(block),
    ensures
        prune_reports(g, block) == (any_single(g, block) || any_hidden(
            after_singles(g, block),
            block,
        ) || any_loss(after_hidden(after_singles(g, block), block), block)),
{
    let g1 = after_singles(g, block);
    let g2 = after_hidden(g1, block);
    let g3 = after_strike(g2, block);
    let gone = settled_digits(g2, block);
    if any_single(g, block) {
        let j = choose|j: int| 0 <= j < block.len() && (#[trigger] g[block[j] as int]).is_single();
        let i = block[j] as int;
        assert(touches(block, i));
        assert(g3[i] != g[i]);
    }
    if any_hidden(g1, block) {
        let j = choose|j: int|
            0 <= j < block.len() && settle_hidden(g1, block, #[trigger] g1[block[j] as int])
                != g1[block[j] as int];
        let i = block[j] as int;
        assert(touches(block, i));
        assert(g3[i] != g[i]);
    }
    if any_loss(g2, block) {
        let j = choose|j: int| 0 <= j < block.len() && (#[trigger] g2[block[j] as int]).loses(gone);
        let i = block[j] as int;
        assert(touches(block, i));
        assert(g3[i] != g[i]);
    }
    if prune_reports(g, block) {
        let i = choose|i: int| 0 <= i < g.len() && #[trigger] pruned(g, block)[i] != g[i];
        assert(touches(block, i));
        let j = choose|j: int| 0 <= j < block.len() && j < block.len() && #[trigger] block[j] == i;
        if !g[block[j] as int].is_single() && settle_hidden(g1, block, g1[block[j] as int])
            == g1[block[j] as int] {
            assert(g2[block[j] as int].loses(gone));
        }
    }
}

impl Narrowing {
    /// `next` allows no digit that the cell does not allow: a settled cell
    /// stays as it is, an open cell keeps some of its candidates or becomes
    /// settled with one of them.
    pub open spec fn narrows_to(self, next: Narrowing) -> bool {
        match self {
            Narrowing::Fixed(_) => next == self,
            Narrowing::Open(p) => match next {
                Narrowing::Fixed(d) => p.contains(d),
                Narrowing::Open(q) => q.len() <= p.len() && forall|x: u8|
                    q.contains(x) ==> p.contains(x),
            },
        }
    }
}

/// Every cell of `h` is narrowed from the cell of `g` at its position.
pub open spec fn grid_narrows_to(g: Seq<Narrowing>, h: Seq<Narrowing>) -> bool {
    &&& g.len() == h.len()
    &&& forall|i: int| 0 <= i < g.len() ==> (#[trigger] g[i]).narrows_to(h[i])
}

/// The search for a hidden single ends at or after the index it starts from.
pub proof fn lemma_first_hidden_range(g: Seq<Narrowing>, block: Seq<usize>, p: Seq<u8>, k: int)
    requires
        0 <= k <= p.len(),
    ensures
        k <= first_hidden(g, block, p, k) <= p.len(),
        first_hidden(g, block, p, k) < p.len() ==> once_in_block(
            g,
            block,
            p[first_hidden(g, block, p, k)],
        ),
    decreases p.len() - k,
{
    if k < p.len() && !once_in_block(g, block, p[k]) {
        lemma_first_hidden_range(g, block, p, k + 1);
    }
}

/// Settling naked singles keeps the grid well-formed and only narrows it.
pub proof fn lemma_singles_narrow(g: Seq<Narrowing>, block: Seq<usize>)
    requires
        narrowings_wf(g),
    ensures
        narrowings_wf(after_singles(g, block)),
        grid_narrows_to(g, after_singles(g, block)),
{
    let h = after_singles(g, block);
    assert forall|i: int| 0 <= i < 81 implies (#[trigger] h[i]).wf() && g[i].narrows_to(h[i]) by {
        assert(g[i].wf());
        match g[i] {
            Narrowing::Open(p) => {
                if p.len() == 1 {
                    assert(p.contains(p[0]));
                }
            },
            Narrowing::Fixed(_) => {},
        }
    }
}

/// Settling hidden singles keeps the grid well-formed and only narrows it.
pub proof fn lemma_hidden_narrow(g: Seq<Narrowing>, block: Seq<usize>)
    requires
        narrowings_wf(g),
    ensures
        narrowings_wf(after_hidden(g, block)),
        grid_narrows_to(g, after_hidden(g, block)),
{
    let h = after_hidden(g, block);
    assert forall|i: int| 0 <= i < 81 implies (#[trigger] h[i]).wf() && g[i].narrows_to(h[i]) by {
        assert(g[i].wf());
        match g[i] {
            Narrowing::Open(p) => {
                lemma_first_hidden_range(g, block, p, 0);
                let k = first_hidden(g, block, p, 0);
                if k < p.len() {
                    assert(p.contains(p[k]));
                }
            },
            Narrowing::Fixed(_) => {},
        }
    }
}

/// Taking settled digits from the candidates keeps the grid well-formed and
/// only narrows it.
pub proof fn lemma_strike_narrow(g: Seq<Narrowing>, block: Seq<usize>)
    requires
        narrowings_wf(g),
    ensures
        narrowings_wf(after_strike(g, block)),
        grid_narrows_to(g, after_strike(g, block)),
{
    let h = after_strike(g, block);
    let gone = settled_digits(g, block);
    assert forall|i: int| 0 <= i < 81 implies (#[trigger] h[i]).wf() && g[i].narrows_to(h[i]) by {
        assert(g[i].wf());
        match g[i] {
            Narrowing::Open(p) => {
                lemma_filter_keeps_order(p, |d: u8| !gone.contains(d));
            },
            Narrowing::Fixed(_) => {},
        }
    }
}

/// A propagation step keeps the grid well-formed and only narrows it.
pub proof fn lemma_pruned_narrows(g: Seq<Narrowing>, block: Seq<usize>)
    requires
        narrowings_wf(g),
    ensures
        narrowings_wf(pruned(g, block)),
        grid_narrows_to(g, pruned(g, block)),
{
    let g1 = after_singles(g, block);
    let g2 = after_hidden(g1, block);
    let g3 = after_strike(g2, block);
    lemma_singles_narrow(g, block);
    lemma_hidden_narrow(g1, block);
    lemma_strike_narrow(g2, block);
    assert forall|i: int| 0 <= i < 81 implies (#[trigger] g[i]).narrows_to(g3[i]) by {
        lemma_narrows_chain(g[i], g1[i], g2[i]);
        lemma_narrows_chain(g[i], g2[i], g3[i]);
    }
}

/// Narrowing twice is narrowing.
pub proof fn lemma_narrows_chain(a: Narrowing, b: Narrowing, c: Narrowing)
    requires
        a.narrows_to(b),
        b.narrows_to(c),
    ensures
        a.narrows_to(c),
{
}

} // verus!

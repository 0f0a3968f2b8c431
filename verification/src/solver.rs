//! The solver: propagation, a test of the digits it settled, then the search
//! on what it left open.

use vstd::prelude::*;
use vstd::pervasive::unreached;
use crate::cells::{
    choices, narrowings, narrowings_wf, shown_digits, Choice, Narrowing, PruneCell, SearchCell,
};
use crate::propagate::{propagate, propagated};
use crate::prune_laws::admits_all;
use crate::rules::{completes, consistent, filled, is_consistent};
use crate::search::search;
use crate::search_model::{accepted, precedes, search_state};
use crate::solver_laws::{
    lemma_accepted_solution, lemma_opening_solves, lemma_opening_wf, lemma_solution_accepted,
    lemma_untried_fresh,
};

verus! {

/// The digits 1 to 9.
pub open spec fn all_digits() -> Seq<u8> {
    seq![1u8, 2u8, 3u8, 4u8, 5u8, 6u8, 7u8, 8u8, 9u8]
}

/// A puzzle: 81 cells, each blank (0) or a digit 1 to 9.
pub open spec fn puzzle(v: Seq<u8>) -> bool {
    &&& v.len() == 81
    &&& forall|i: int| 0 <= i < 81 ==> #[trigger] v[i] <= 9
}

/// The grid that propagation starts from: the givens settled, each blank
/// open to every digit.
pub open spec fn opening(v: Seq<u8>) -> Seq<Narrowing> {
    Seq::new(
        81,
        |i: int|
            if v[i] == 0 {
                Narrowing::Open(all_digits())
            } else {
                Narrowing::Fixed(v[i])
            },
    )
}

/// The grid that the search starts from, given what propagation left.
pub open spec fn untried(g: Seq<Narrowing>) -> Seq<Choice> {
    Seq::new(g.len(), |i: int| g[i].untried())
}

/// `s` solves the grid `g`: it is a full grid of digits that obeys the
/// rule, with a digit in each cell that the cell allows.
pub open spec fn solves(g: Seq<Narrowing>, s: Seq<u8>) -> bool {
    &&& filled(s)
    &&& admits_all(g, s)
    &&& consistent(s)
}

/// `s` is the solution of the grid `g` that comes first: the one that
/// holds the smaller digit at the first position where it differs from
/// any other.
pub open spec fn first_solution(g: Seq<Narrowing>, s: Seq<u8>) -> bool {
    solves(g, s) && forall|t: Seq<u8>| #[trigger] solves(g, t) ==> !precedes(t, s, 81)
}

/// Whether the puzzle has a solution.
pub open spec fn solvable(v: Seq<u8>) -> bool {
    exists|s: Seq<u8>| completes(v, s)
}

/// What the solver returns for the puzzle `v`: the solution that comes
/// first, or nothing where the puzzle has none.
pub open spec fn solve_outcome(v: Seq<u8>, res: Option<Seq<u8>>) -> bool {
    match res {
        Some(s) => completes(v, s) && forall|t: Seq<u8>| #[trigger]
            completes(v, t) ==> !precedes(t, s, 81),
        None => !solvable(v),
    }
}

/// The digits of a result of the solver.
pub open spec fn digits_of(res: Option<Vec<u8>>) -> Option<Seq<u8>> {
    match res {
        Some(out) => Some(out@),
        None => None,
    }
}

/// Narrows the grid by propagation, tests the digits that are then
/// settled against the rule, and searches what is left open. The result
/// shows the solution of the grid that comes first, with a digit or a
/// chosen candidate in every cell, each open cell keeping the candidates
/// that propagation left it; `None` means that the grid has no solution.
pub fn solve(grid: Vec<PruneCell>) -> (res: Option<Vec<SearchCell>>)
    requires
        narrowings_wf(narrowings(grid@)),
    ensures
        match res {
            Some(done) => {
                &&& first_solution(narrowings(grid@), shown_digits(choices(done@)))
                &&& search_state(untried(propagated(narrowings(grid@))), choices(done@), 81)
            },
            None => forall|t: Seq<u8>| !solves(narrowings(grid@), t),
        },
{
    let ghost given = narrowings(grid@);
    let mut cells: Vec<PruneCell> = grid;
    propagate(&mut cells);
    let ghost narrowed = narrowings(cells@);
    let ghost start = untried(narrowed);
    let mut settled: Vec<u8> = Vec::new();
    let mut search_grid: Vec<SearchCell> = Vec::new();
    let mut i: usize = 0;
    while i < 81
        invariant
            i <= 81,
            narrowed == propagated(given),
            narrowed == narrowings(cells@),
            given == narrowings(grid@),
            narrowings_wf(given),
            narrowings_wf(narrowed),
            start == untried(narrowed),
            settled@.len() == i,
            search_grid@.len() == i,
            forall|j: int| 0 <= j < i ==> #[trigger] settled@[j] == start[j].shown(),
            forall|j: int| 0 <= j < i ==> (#[trigger] search_grid@[j])@ == start[j],
        decreases 81 - i,
    {
        assert(narrowed[i as int] == cells@[i as int]@);
        match &cells[i] {
            PruneCell::Fixed(x) => {
                settled.push(*x);
                search_grid.push(SearchCell::Fixed(*x));
            },
            PruneCell::Possibilities(p) => {
                if p.len() == 0 {
                    proof {
                        assert forall|t: Seq<u8>| !solves(given, t) by {
                            if solves(given, t) {
                                lemma_solution_accepted(given, t);
                                assert(start[i as int].admits(t[i as int]));
                            }
                        }
                    }
                    return None;
                }
                let list: Vec<u8> = p.clone();
                assert(list@ =~= p@);
                settled.push(0);
                search_grid.push(SearchCell::Vacant(list));
            },
        }
        i += 1;
    }
    proof {
        assert(settled@ =~= shown_digits(start));
        assert(choices(search_grid@) =~= start);
        lemma_untried_fresh(narrowed);
    }
    if !is_consistent(settled.as_slice()) {
        proof {
            assert forall|t: Seq<u8>| !solves(given, t) by {
                if solves(given, t) {
                    lemma_solution_accepted(given, t);
                }
            }
        }
        return None;
    }
    let found: Option<Vec<SearchCell>> = search(search_grid);
    proof {
        assert forall|t: Seq<u8>| solves(given, t) implies accepted(start, t) by {
            lemma_solution_accepted(given, t);
        }
        if found.is_some() {
            lemma_accepted_solution(given, shown_digits(choices(found.unwrap()@)));
        }
    }
    found
}

/// Solves the puzzle `v`, 0 for a blank. The result is the solution
/// which holds the smaller digit at the first position where it differs
/// from any other solution; `None` means that the puzzle has none.
pub fn solve_sudoku(v: &[u8]) -> (res: Option<Vec<u8>>)
    requires
        puzzle(v@),
    ensures
        solve_outcome(v@, digits_of(res)),
        res is None <==> !solvable(v@),
        res matches Some(out) ==> completes(v@, out@) && forall|s: Seq<u8>| #[trigger]
            completes(v@, s) ==> !precedes(s, out@, 81),
{
    let mut input: Vec<PruneCell> = Vec::new();
    let mut i: usize = 0;
    while i < 81
        invariant
            i <= 81,
            puzzle(v@),
            input@.len() == i,
            forall|j: int| 0 <= j < i ==> (#[trigger] input@[j])@ == opening(v@)[j],
        decreases 81 - i,
    {
        let x: u8 = v[i];
        let cell: PruneCell = if x == 0 {
            let list: Vec<u8> = vec![1u8, 2u8, 3u8, 4u8, 5u8, 6u8, 7u8, 8u8, 9u8];
            assert(list@ =~= all_digits());
            PruneCell::Possibilities(list)
        } else {
            PruneCell::Fixed(x)
        };
        input.push(cell);
        i += 1;
    }
    proof {
        assert(narrowings(input@) =~= opening(v@));
        lemma_opening_wf(v@);
        assert forall|s: Seq<u8>| completes(v@, s) == solves(opening(v@), s) by {
            lemma_opening_solves(v@, s);
        }
    }
    let found: Option<Vec<SearchCell>> = solve(input);
    match found {
        None => None,
        Some(done) => {
            let ghost cells = choices(done@);
            let mut out: Vec<u8> = Vec::new();
            let mut k: usize = 0;
            while k < 81
                invariant
                    k <= 81,
                    cells == choices(done@),
                    search_state(untried(propagated(opening(v@))), cells, 81),
                    out@.len() == k,
                    forall|j: int| 0 <= j < k ==> #[trigger] out@[j] == cells[j].shown(),
                decreases 81 - k,
            {
                assert(cells[k as int] == done@[k as int]@);
                assert(cells[k as int].wf());
                assert(!cells[k as int].vacant());
                let digit: u8 = match &done[k] {
                    SearchCell::Fixed(n) => *n,
                    SearchCell::Filled(idx, p) => p[*idx],
                    SearchCell::Vacant(_) => unreached(),
                };
                out.push(digit);
                k += 1;
            }
            proof {
                assert(out@ =~= shown_digits(cells));
            }
            Some(out)
        },
    }
}

} // verus!

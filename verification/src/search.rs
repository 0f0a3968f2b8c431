//! The backtracking search: a cursor that walks the grid forward, choosing
//! at each open cell the first candidate that passes the test, and walks
//! back to the last choice when none does.

use vstd::prelude::*;
use crate::cells::{choices, choices_wf, shown_digits, Choice, SearchCell};
use crate::progress::{lemma_advance, lemma_remaining_bound, lemma_retreat, remaining};
use crate::search_model::{
    accepted, first_accepted, fresh, guess, guess_passes, lemma_digit_list_short, lemma_exhausted,
    lemma_guess_taken,
    lemma_resume, lemma_search_done, lemma_shut_extend, lemma_skip_backward, lemma_skip_forward,
    none_along, none_before, retract, search_state, shut,
};
use crate::valid::is_valid;

verus! {

/// Tries the candidates of the cell at `idx` in order, from index `from`
/// on, and leaves the first that passes the test chosen. Where none passes,
/// the cell is left vacant.
fn try_from(grid: &mut Vec<SearchCell>, idx: usize, from: usize) -> (found: bool)
    requires
        choices_wf(choices(old(grid)@)),
        idx < 81,
        !choices(old(grid)@)[idx as int].settled(),
        from <= choices(old(grid)@)[idx as int].list().len(),
    ensures
        choices_wf(choices(final(grid)@)),
        found ==> ({
            let g = choices(final(grid)@)[idx as int].chosen();
            &&& from <= g < choices(old(grid)@)[idx as int].list().len()
            &&& choices(final(grid)@) == guess(choices(old(grid)@), idx as int, g)
            &&& guess_passes(choices(old(grid)@), idx as int, g)
            &&& forall|m: int| from <= m < g ==> !#[trigger] guess_passes(choices(old(grid)@), idx as int, m)
        }),
        !found ==> ({
            &&& choices(final(grid)@) == retract(choices(old(grid)@), idx as int)
            &&& forall|m: int|
                from <= m < choices(old(grid)@)[idx as int].list().len() ==> !#[trigger] guess_passes(
                    choices(old(grid)@),
                    idx as int,
                    m,
                )
        }),
{
    let ghost cur = choices(grid@);
    assert(cur[idx as int] == grid@[idx as int]@);
    assert(cur[idx as int].wf());
    let p: Vec<u8> = match &grid[idx] {
        SearchCell::Vacant(p) => p.clone(),
        SearchCell::Filled(_, p) => p.clone(),
        SearchCell::Fixed(_) => Vec::new(),
    };
    assert(p@ =~= cur[idx as int].list());
    let n: usize = p.len();
    let mut g: usize = from;
    while g < n
        invariant
            idx < 81,
            from <= g <= n,
            n == p@.len(),
            p@ == cur[idx as int].list(),
            cur == choices(old(grid)@),
            choices_wf(cur),
            !cur[idx as int].settled(),
            grid@.len() == 81,
            forall|i: int| 0 <= i < 81 && i != idx ==> (#[trigger] grid@[i])@ == cur[i],
            forall|m: int| from <= m < g ==> !#[trigger] guess_passes(cur, idx as int, m),
        decreases n - g,
    {
        let list: Vec<u8> = p.clone();
        assert(list@ =~= p@);
        grid.set(idx, SearchCell::Filled(g, list));
        proof {
            assert(choices(grid@) =~= guess(cur, idx as int, g as int));
            assert forall|i: int| 0 <= i < 81 implies (#[trigger] choices(grid@)[i]).wf() by {
                assert(cur[i].wf());
            }
        }
        if is_valid(grid.as_slice(), idx) {
            proof {
                assert(choices(grid@)[idx as int] == Choice::Filled(g as int, p@));
                assert(guess_passes(cur, idx as int, g as int));
            }
            return true;
        }
        g += 1;
    }
    grid.set(idx, SearchCell::Vacant(p));
    proof {
        assert(choices(grid@) =~= retract(cur, idx as int));
        assert forall|i: int| 0 <= i < 81 implies (#[trigger] choices(grid@)[i]).wf() by {
            assert(cur[i].wf());
        }
    }
    false
}

/// Looks for the first filling that the search accepts. The result holds,
/// for each open cell, the candidate chosen; `None` means that no filling
/// is accepted.
pub fn search(grid: Vec<SearchCell>) -> (res: Option<Vec<SearchCell>>)
    requires
        fresh(choices(grid@)),
    ensures
        match res {
            Some(done) => search_state(choices(grid@), choices(done@), 81) && first_accepted(
                choices(grid@),
                shown_digits(choices(done@)),
            ),
            None => forall|t: Seq<u8>| !accepted(choices(grid@), t),
        },
{
    let ghost start = choices(grid@);
    let mut grid = grid;
    let mut backtrack: bool = false;
    let mut idx: isize = 0;
    proof {
        lemma_remaining_bound(start, 0, false);
    }
    while idx >= 0 && idx < 81
        invariant
            -1 <= idx <= 81,
            backtrack ==> idx <= 80,
            !backtrack ==> idx >= 0,
            search_state(
                start,
                choices(grid@),
                if backtrack {
                    idx + 1
                } else {
                    idx as int
                },
            ),
            none_before(
                start,
                shown_digits(choices(grid@)),
                if backtrack {
                    idx + 1
                } else {
                    idx as int
                },
            ),
            backtrack ==> none_along(start, shown_digits(choices(grid@)), idx + 1),
            remaining(
                choices(grid@),
                if backtrack {
                    idx + 1
                } else {
                    idx as int
                },
                backtrack,
            ) >= 0,
        decreases
                remaining(
                    choices(grid@),
                    if backtrack {
                        idx + 1
                    } else {
                        idx as int
                    },
                    backtrack,
                ),
                81 - idx,
    {
        let at: usize = idx as usize;
        let ghost cur = choices(grid@);
        let ghost was_back = backtrack;
        assert(cur[at as int] == grid@[at as int]@);
        assert(cur[at as int].cleared() == start[at as int]);
        assert(cur[at as int].wf());
        let step: Option<usize> = match &grid[at] {
            SearchCell::Fixed(_) => None,
            SearchCell::Vacant(_) => Some(0),
            SearchCell::Filled(guess_idx, p) => {
                proof {
                    lemma_digit_list_short(p@);
                }
                Some(*guess_idx + 1)
            },
        };
        match step {
            None => {
                if backtrack {
                    proof {
                        lemma_skip_backward(start, cur, idx as int);
                        lemma_retreat(cur, cur, idx as int, true);
                        lemma_remaining_bound(cur, idx as int, true);
                    }
                    idx -= 1;
                } else {
                    proof {
                        lemma_skip_forward(start, cur, idx as int);
                        lemma_remaining_bound(cur, idx + 1, false);
                    }
                    idx += 1;
                }
            },
            Some(from) => {
                let ghost base = if backtrack {
                    retract(cur, idx as int)
                } else {
                    cur
                };
                proof {
                    if backtrack {
                        lemma_resume(start, cur, idx as int);
                    } else {
                        assert(cur[idx as int] == start[idx as int]);
                        assert(retract(cur, idx as int) =~= cur);
                    }
                    assert(search_state(start, base, idx as int));
                    assert(shut(
                        start,
                        shown_digits(base),
                        idx as int,
                        start[idx as int].list(),
                        from as int,
                    ));
                    assert(forall|m: int| guess(base, idx as int, m) == guess(cur, idx as int, m));
                }
                let found: bool = try_from(&mut grid, at, from);
                let ghost next = choices(grid@);
                if found {
                    proof {
                        let g = next[idx as int].chosen();
                        assert forall|m: int| from <= m < g implies !#[trigger] guess_passes(
                            base,
                            idx as int,
                            m,
                        ) by {
                            assert(guess(base, idx as int, m) == guess(cur, idx as int, m));
                            assert(!guess_passes(cur, idx as int, m));
                        }
                        lemma_shut_extend(start, base, idx as int, from as int, g);
                        assert(guess(base, idx as int, g) == guess(cur, idx as int, g));
                        lemma_guess_taken(start, base, idx as int, g);
                        lemma_advance(cur, next, idx as int, backtrack);
                        lemma_remaining_bound(next, idx + 1, false);
                    }
                    backtrack = false;
                    idx += 1;
                } else {
                    proof {
                        let len = start[idx as int].list().len() as int;
                        assert(next =~= base);
                        assert forall|m: int| from <= m < len implies !#[trigger] guess_passes(
                            base,
                            idx as int,
                            m,
                        ) by {
                            assert(guess(base, idx as int, m) == guess(cur, idx as int, m));
                            assert(!guess_passes(cur, idx as int, m));
                        }
                        lemma_shut_extend(start, base, idx as int, from as int, len);
                        lemma_exhausted(start, base, idx as int);
                        lemma_retreat(cur, next, idx as int, backtrack);
                        lemma_remaining_bound(next, idx as int, true);
                    }
                    backtrack = true;
                    idx -= 1;
                }
            },
        }
    }
    if idx < 0 {
        None
    } else {
        proof {
            lemma_search_done(start, choices(grid@));
        }
        Some(grid)
    }
}

} // verus!

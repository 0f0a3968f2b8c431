//! What the solver's result rests on: the fillings that the search accepts
//! are the solutions, once the digits that propagation settled obey the
//! rule.

use vstd::prelude::*;
use crate::cells::{narrowings_wf, shown_digits, Choice, Narrowing};
use crate::geometry::unit_of;
use crate::lists::digit_list;
use crate::propagate::{lemma_propagated_narrows, lemma_propagated_sound, propagated};
use crate::rules::{completes, consistent, filled, keeps_givens, unit_distinct};
use crate::search_model::{accepted, fresh, in_view, passes_at, precedes, same_upto, seen_at};
use crate::solver::{all_digits, opening, puzzle, solve_outcome, solves, untried};

verus! {

/// The grid that propagation starts from is well-formed.
pub proof fn lemma_opening_wf(v: Seq<u8>)
    requires
        puzzle(v),
    ensures
        narrowings_wf(opening(v)),
{
    let g = opening(v);
    assert(digit_list(all_digits()));
    assert forall|i: int| 0 <= i < 81 implies (#[trigger] g[i]).wf() by {
        assert(v[i] <= 9);
    }
}

/// The solutions of a puzzle are the solutions of the grid that
/// propagation starts from.
pub proof fn lemma_opening_solves(v: Seq<u8>, s: Seq<u8>)
    requires
        puzzle(v),
    ensures
        completes(v, s) == solves(opening(v), s),
{
    let g = opening(v);
    let all = all_digits();
    if completes(v, s) {
        assert forall|i: int| 0 <= i < 81 implies (#[trigger] g[i]).admits(s[i]) by {
            assert(1 <= s[i] <= 9);
            if v[i] == 0 {
                assert(all[s[i] - 1] == s[i]);
            } else {
                assert(s[i] == v[i]);
            }
        }
    }
    if solves(g, s) {
        assert forall|i: int| 0 <= i < 81 && v[i] != 0 implies #[trigger] s[i] == v[i] by {
            assert(g[i].admits(s[i]));
        }
    }
}

/// What propagation leaves is a grid that the search can start from.
pub proof fn lemma_untried_fresh(g: Seq<Narrowing>)
    requires
        narrowings_wf(g),
    ensures
        fresh(untried(g)),
{
    let start = untried(g);
    assert forall|i: int| 0 <= i < 81 implies (#[trigger] start[i]).wf() && start[i].cleared()
        == start[i] by {
        assert(g[i].wf());
    }
}

/// The search accepts every solution of the grid that propagation was
/// made on, and where there is a solution, the digits that propagation
/// settled obey the rule.
pub proof fn lemma_solution_accepted(g: Seq<Narrowing>, s: Seq<u8>)
    requires
        narrowings_wf(g),
        solves(g, s),
    ensures
        accepted(untried(propagated(g)), s),
        consistent(shown_digits(untried(propagated(g)))),
{
    let narrowed = propagated(g);
    let start = untried(narrowed);
    let settled = shown_digits(start);
    lemma_propagated_narrows(g);
    lemma_propagated_sound(g, s);
    assert forall|i: int| 0 <= i < 81 implies (#[trigger] start[i]).admits(s[i]) by {
        assert(narrowed[i].admits(s[i]));
    }
    assert forall|i: int| 0 <= i < 81 && !(#[trigger] start[i]).settled() implies passes_at(
        start,
        s,
        i,
    ) by {
        let seen = seen_at(start, s, i);
        assert forall|kind: int| 0 <= kind < 3 implies #[trigger] unit_distinct(
            seen,
            kind,
            unit_of(kind, i),
        ) by {
            let k = unit_of(kind, i);
            assert(0 <= k < 9);
            assert(unit_distinct(s, kind, k));
            assert forall|a: int, b: int|
                0 <= a < 81 && 0 <= b < 81 && a != b && unit_of(kind, a) == k && unit_of(kind, b)
                    == k && seen[a] != 0 implies seen[a] != seen[b] by {
                assert(s[a] != s[b]);
            }
        }
    }
    assert forall|kind: int, k: int| 0 <= kind < 3 && 0 <= k < 9 implies #[trigger] unit_distinct(
        settled,
        kind,
        k,
    ) by {
        assert(unit_distinct(s, kind, k));
        assert forall|a: int, b: int|
            0 <= a < 81 && 0 <= b < 81 && a != b && unit_of(kind, a) == k && unit_of(kind, b) == k
                && settled[a] != 0 implies settled[a] != settled[b] by {
            assert(start[a].admits(s[a]));
            assert(start[b].admits(s[b]));
            assert(s[a] != s[b]);
        }
    }
}

/// Where the digits that propagation settled obey the rule, every filling
/// that the search accepts is a solution of the grid that propagation was
/// made on.
pub proof fn lemma_accepted_solution(g: Seq<Narrowing>, t: Seq<u8>)
    requires
        narrowings_wf(g),
        accepted(untried(propagated(g)), t),
        consistent(shown_digits(untried(propagated(g)))),
    ensures
        solves(g, t),
{
    let narrowed = propagated(g);
    let start = untried(narrowed);
    let settled = shown_digits(start);
    lemma_propagated_narrows(g);
    lemma_untried_fresh(narrowed);
    assert forall|i: int| 0 <= i < 81 implies 1 <= #[trigger] t[i] <= 9 by {
        assert(start[i].admits(t[i]));
        assert(start[i].wf());
        match start[i] {
            Choice::Vacant(p) => {
                let m = choose|m: int| 0 <= m < p.len() && p[m] == t[i];
                assert(1 <= p[m] <= 9);
            },
            _ => {},
        }
    }
    assert forall|i: int| 0 <= i < 81 implies (#[trigger] g[i]).admits(t[i]) by {
        assert(start[i].admits(t[i]));
        assert(g[i].narrows_to(narrowed[i]));
    }
    assert forall|kind: int, k: int| 0 <= kind < 3 && 0 <= k < 9 implies #[trigger] unit_distinct(
        t,
        kind,
        k,
    ) by {
        assert(unit_distinct(settled, kind, k));
        assert forall|a: int, b: int|
            0 <= a < 81 && 0 <= b < 81 && a != b && unit_of(kind, a) == k && unit_of(kind, b) == k
                && t[a] != 0 implies t[a] != t[b] by {
            assert(start[a].admits(t[a]));
            assert(start[b].admits(t[b]));
            if start[a].settled() && start[b].settled() {
                assert(settled[a] != settled[b]);
            } else {
                let last = if start[a].settled() || (!start[b].settled() && a < b) {
                    b
                } else {
                    a
                };
                assert(!start[last].settled());
                assert(passes_at(start, t, last));
                let seen = seen_at(start, t, last);
                assert(unit_distinct(seen, kind, unit_of(kind, last)));
                assert(in_view(start, a, last) && in_view(start, b, last));
                assert(seen[a] == t[a] && seen[b] == t[b]);
            }
        }
    }
}

/// Two grids that agree at the first `n` positions, or one of them comes
/// before the other there.
pub proof fn lemma_order_total(a: Seq<u8>, b: Seq<u8>, n: int)
    requires
        0 <= n,
    ensures
        same_upto(a, b, n) || precedes(a, b, n) || precedes(b, a, n),
    decreases n,
{
    if n > 0 {
        lemma_order_total(a, b, n - 1);
        if same_upto(a, b, n - 1) {
            assert(same_upto(b, a, n - 1));
            if a[n - 1] == b[n - 1] {
            } else if a[n - 1] < b[n - 1] {
                assert(precedes(a, b, n));
            } else {
                assert(precedes(b, a, n));
            }
        } else if precedes(a, b, n - 1) {
            let j = choose|j: int| 0 <= j < n - 1 && a[j] < b[j] && #[trigger] same_upto(a, b, j);
            assert(precedes(a, b, n));
        } else {
            let j = choose|j: int| 0 <= j < n - 1 && b[j] < a[j] && #[trigger] same_upto(b, a, j);
            assert(precedes(b, a, n));
        }
    }
}

/// The solver is deterministic: a puzzle has one outcome.
pub proof fn lemma_outcome_unique(v: Seq<u8>, r1: Option<Seq<u8>>, r2: Option<Seq<u8>>)
    requires
        solve_outcome(v, r1),
        solve_outcome(v, r2),
    ensures
        r1 == r2,
{
    match (r1, r2) {
        (Some(a), Some(b)) => {
            lemma_order_total(a, b, 81);
            assert(completes(v, a) && completes(v, b));
            assert(a =~= b);
        },
        (Some(a), None) => {
            assert(completes(v, a));
        },
        (None, Some(b)) => {
            assert(completes(v, b));
        },
        (None, None) => {},
    }
}

/// A solution that the solver returns passes the consistency test again,
/// holds a digit 1 to 9 in every cell, and keeps the givens.
pub proof fn lemma_solution_round_trip(v: Seq<u8>, out: Seq<u8>)
    requires
        solve_outcome(v, Some(out)),
    ensures
        consistent(out),
        filled(out),
        keeps_givens(v, out),
{
}

} // verus!

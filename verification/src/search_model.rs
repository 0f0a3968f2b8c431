//! What the backtracking search looks for: the fillings it accepts, the
//! order in which it meets them, and the state it keeps on the way.

use vstd::prelude::*;
use crate::cells::{choices_wf, shown_digits, Choice};
use crate::lists::digit_list;
use crate::rules::distinct_around;

verus! {

impl Choice {
    /// Whether the cell holds a settled digit.
    pub open spec fn settled(self) -> bool {
        match self {
            Choice::Fixed(_) => true,
            _ => false,
        }
    }

    /// Whether the cell is vacant.
    pub open spec fn vacant(self) -> bool {
        match self {
            Choice::Vacant(_) => true,
            _ => false,
        }
    }

    /// The candidates of the cell; none for a settled cell.
    pub open spec fn list(self) -> Seq<u8> {
        match self {
            Choice::Fixed(_) => Seq::empty(),
            Choice::Vacant(p) => p,
            Choice::Filled(_, p) => p,
        }
    }

    /// The index of the chosen candidate; 0 where none is chosen.
    pub open spec fn chosen(self) -> int {
        match self {
            Choice::Filled(g, _) => g,
            _ => 0,
        }
    }

    /// How many candidates the cell has gone through, the chosen one
    /// included.
    pub open spec fn tried(self) -> nat {
        match self {
            Choice::Filled(g, _) => (g + 1) as nat,
            _ => 0,
        }
    }
}

/// A grid as the search starts from it: well-formed, with no cell filled.
pub open spec fn fresh(start: Seq<Choice>) -> bool {
    &&& choices_wf(start)
    &&& forall|i: int| 0 <= i < 81 ==> (#[trigger] start[i]).cleared() == start[i]
}

/// Whether the cell at `a` shows a digit when the search tests position
/// `p`: settled cells always do, the others up to `p`.
pub open spec fn in_view(start: Seq<Choice>, a: int, p: int) -> bool {
    start[a].settled() || a <= p
}

/// The digits of `s` that show when the search tests position `p`.
pub open spec fn seen_at(start: Seq<Choice>, s: Seq<u8>, p: int) -> Seq<u8> {
    Seq::new(
        81,
        |a: int|
            if in_view(start, a, p) {
                s[a]
            } else {
                0u8
            },
    )
}

/// Whether the digit of `s` at position `p` passes the test of the search:
/// with the settled cells and the cells up to `p` showing, the row, the
/// column and the box of `p` hold no digit twice.
pub open spec fn passes_at(start: Seq<Choice>, s: Seq<u8>, p: int) -> bool {
    distinct_around(seen_at(start, s, p), p)
}

/// A filling that the search accepts: each cell holds its settled digit or
/// one of its candidates, and each choice passed the test when it was made.
pub open spec fn accepted(start: Seq<Choice>, s: Seq<u8>) -> bool {
    &&& s.len() == 81
    &&& forall|i: int| 0 <= i < 81 ==> (#[trigger] start[i]).admits(s[i])
    &&& forall|i: int| 0 <= i < 81 && !(#[trigger] start[i]).settled() ==> passes_at(start, s, i)
}

/// `a` and `b` agree at the first `n` positions.
pub open spec fn same_upto(a: Seq<u8>, b: Seq<u8>, n: int) -> bool {
    forall|m: int| 0 <= m < n ==> a[m] == b[m]
}

/// Within the first `n` positions, `a` has the smaller digit where the two
/// first differ.
pub open spec fn precedes(a: Seq<u8>, b: Seq<u8>, n: int) -> bool {
    exists|j: int| 0 <= j < n && a[j] < b[j] && #[trigger] same_upto(a, b, j)
}

/// No accepted filling comes before `s` within the first `n` positions.
pub open spec fn none_before(start: Seq<Choice>, s: Seq<u8>, n: int) -> bool {
    forall|t: Seq<u8>| #[trigger] accepted(start, t) ==> !precedes(t, s, n)
}

/// No accepted filling agrees with `s` at the first `n` positions.
pub open spec fn none_along(start: Seq<Choice>, s: Seq<u8>, n: int) -> bool {
    forall|t: Seq<u8>| #[trigger] accepted(start, t) ==> !same_upto(t, s, n)
}

/// `s` is the accepted filling that comes first: the one met by trying, at
/// each position in order, the smallest candidate first.
pub open spec fn first_accepted(start: Seq<Choice>, s: Seq<u8>) -> bool {
    accepted(start, s) && none_before(start, s, 81)
}

/// The grid with candidate `m` chosen at position `idx`.
pub open spec fn guess(cur: Seq<Choice>, idx: int, m: int) -> Seq<Choice> {
    cur.update(idx, Choice::Filled(m, cur[idx].list()))
}

/// Whether candidate `m` at position `idx` passes the test of the search.
pub open spec fn guess_passes(cur: Seq<Choice>, idx: int, m: int) -> bool {
    distinct_around(shown_digits(guess(cur, idx, m)), idx)
}

/// The grid with the choice at position `idx` taken back.
pub open spec fn retract(cur: Seq<Choice>, idx: int) -> Seq<Choice> {
    cur.update(idx, cur[idx].cleared())
}

/// The state of the search with the first `edge` cells resolved: those
/// cells show digits that passed the test, the others are as at the start,
/// and every cell keeps the candidate list it started with.
pub open spec fn search_state(start: Seq<Choice>, cur: Seq<Choice>, edge: int) -> bool {
    &&& fresh(start)
    &&& choices_wf(cur)
    &&& 0 <= edge <= 81
    &&& forall|i: int| 0 <= i < 81 ==> (#[trigger] cur[i]).cleared() == start[i]
    &&& forall|i: int| 0 <= i < edge ==> !(#[trigger] cur[i]).vacant()
    &&& forall|i: int| edge <= i < 81 ==> (#[trigger] cur[i]) == start[i]
    &&& forall|i: int|
        0 <= i < edge && !(#[trigger] start[i]).settled() ==> passes_at(start, shown_digits(cur), i)
}

/// No accepted filling that agrees with `s` below `idx` holds one of the
/// first `g` candidates of `p` at `idx`.
pub open spec fn shut(start: Seq<Choice>, s: Seq<u8>, idx: int, p: Seq<u8>, g: int) -> bool {
    forall|t: Seq<u8>|
        #[trigger] accepted(start, t) && same_upto(t, s, idx) ==> forall|m: int|
            0 <= m < g && m < p.len() ==> t[idx] != #[trigger] p[m]
}

/// Entry `i` of a candidate list is at least `i + 1`.
pub proof fn lemma_entry_floor(p: Seq<u8>, i: int)
    requires
        digit_list(p),
        0 <= i < p.len(),
    ensures
        p[i] >= i + 1,
    decreases i,
{
    if i > 0 {
        lemma_entry_floor(p, i - 1);
    }
}

/// A candidate list has at most nine entries.
pub proof fn lemma_digit_list_short(p: Seq<u8>)
    requires
        digit_list(p),
    ensures
        p.len() <= 9,
{
    if p.len() > 0 {
        lemma_entry_floor(p, p.len() - 1);
    }
}

/// What shows at a position does not depend on the cells that come after
/// it and are not settled.
pub proof fn lemma_passes_local(start: Seq<Choice>, s: Seq<u8>, t: Seq<u8>, p: int)
    requires
        forall|a: int| 0 <= a < 81 && in_view(start, a, p) ==> s[a] == t[a],
    ensures
        seen_at(start, s, p) == seen_at(start, t, p),
        passes_at(start, s, p) == passes_at(start, t, p),
{
    assert(seen_at(start, s, p) =~= seen_at(start, t, p));
}

/// An accepted filling that agrees with the grid below `idx` and holds
/// candidate `m` at `idx` shows, at the test of `idx`, what the grid shows
/// with that candidate chosen.
pub proof fn lemma_seen_matches_guess(
    start: Seq<Choice>,
    cur: Seq<Choice>,
    idx: int,
    m: int,
    t: Seq<u8>,
)
    requires
        search_state(start, cur, idx),
        idx < 81,
        !start[idx].settled(),
        0 <= m < start[idx].list().len(),
        accepted(start, t),
        same_upto(t, shown_digits(cur), idx),
        t[idx] == start[idx].list()[m],
    ensures
        seen_at(start, t, idx) == shown_digits(guess(cur, idx, m)),
{
    let next = guess(cur, idx, m);
    assert forall|a: int| 0 <= a < 81 implies seen_at(start, t, idx)[a] == shown_digits(next)[a] by {
        assert(cur[a].cleared() == start[a]);
        assert(start[a].admits(t[a]));
        if a == idx {
        } else if a < idx {
            assert(t[a] == shown_digits(cur)[a]);
        } else {
            assert(cur[a] == start[a]);
            assert(start[a].cleared() == start[a]);
        }
    }
    assert(seen_at(start, t, idx) =~= shown_digits(next));
}

/// Candidates that fail the test are shut out.
pub proof fn lemma_shut_extend(start: Seq<Choice>, cur: Seq<Choice>, idx: int, from: int, to: int)
    requires
        search_state(start, cur, idx),
        idx < 81,
        !start[idx].settled(),
        0 <= from <= to <= start[idx].list().len(),
        shut(start, shown_digits(cur), idx, start[idx].list(), from),
        forall|m: int| from <= m < to ==> !#[trigger] guess_passes(cur, idx, m),
    ensures
        shut(start, shown_digits(cur), idx, start[idx].list(), to),
{
    let p = start[idx].list();
    let s = shown_digits(cur);
    assert forall|t: Seq<u8>| #[trigger] accepted(start, t) && same_upto(t, s, idx) implies forall|
        m: int,
    |
        0 <= m < to && m < p.len() ==> t[idx] != #[trigger] p[m] by {
        assert forall|m: int| 0 <= m < to && m < p.len() implies t[idx] != #[trigger] p[m] by {
            if m >= from && t[idx] == p[m] {
                lemma_seen_matches_guess(start, cur, idx, m, t);
                assert(passes_at(start, t, idx));
                assert(guess_passes(cur, idx, m));
            }
        }
    }
}

/// A candidate that passes the test, with the ones before it shut out,
/// resolves its cell: the search stands one cell further.
pub proof fn lemma_guess_taken(start: Seq<Choice>, cur: Seq<Choice>, idx: int, g: int)
    requires
        search_state(start, cur, idx),
        idx < 81,
        !start[idx].settled(),
        0 <= g < start[idx].list().len(),
        none_before(start, shown_digits(cur), idx),
        shut(start, shown_digits(cur), idx, start[idx].list(), g),
        guess_passes(cur, idx, g),
    ensures
        search_state(start, guess(cur, idx, g), idx + 1),
        none_before(start, shown_digits(guess(cur, idx, g)), idx + 1),
{
    let p = start[idx].list();
    let s = shown_digits(cur);
    let next = guess(cur, idx, g);
    let s2 = shown_digits(next);
    assert(cur[idx] == start[idx]);
    assert(start[idx].cleared() == start[idx]);
    assert(start[idx].wf());
    assert forall|i: int| 0 <= i < 81 implies (#[trigger] next[i]).wf() && next[i].cleared()
        == start[i] by {
        assert(cur[i].wf());
        assert(cur[i].cleared() == start[i]);
    }
    assert forall|i: int| 0 <= i < idx + 1 && !(#[trigger] start[i]).settled() implies passes_at(
        start,
        s2,
        i,
    ) by {
        if i < idx {
            assert(passes_at(start, s, i));
            lemma_passes_local(start, s, s2, i);
        } else {
            assert forall|a: int| 0 <= a < 81 implies seen_at(start, s2, idx)[a] == s2[a] by {
                if !in_view(start, a, idx) {
                    assert(cur[a] == start[a]);
                    assert(start[a].cleared() == start[a]);
                }
            }
            assert(seen_at(start, s2, idx) =~= s2);
        }
    }
    assert forall|t: Seq<u8>| #[trigger] accepted(start, t) implies !precedes(t, s2, idx + 1) by {
        if precedes(t, s2, idx + 1) {
            let j = choose|j: int| 0 <= j < idx + 1 && t[j] < s2[j] && #[trigger] same_upto(t, s2, j);
            if j < idx {
                assert(same_upto(t, s, j));
                assert(t[j] < s[j]);
                assert(precedes(t, s, idx));
            } else {
                assert(same_upto(t, s, idx));
                assert(start[idx].admits(t[idx]));
                let m = choose|m: int| 0 <= m < p.len() && p[m] == t[idx];
                assert(m < g);
            }
        }
    }
}

/// With all its candidates shut out, no accepted filling goes on from the
/// resolved cells.
pub proof fn lemma_exhausted(start: Seq<Choice>, cur: Seq<Choice>, idx: int)
    requires
        search_state(start, cur, idx),
        idx < 81,
        !start[idx].settled(),
        shut(start, shown_digits(cur), idx, start[idx].list(), start[idx].list().len() as int),
    ensures
        none_along(start, shown_digits(cur), idx),
{
    let p = start[idx].list();
    let s = shown_digits(cur);
    assert forall|t: Seq<u8>| #[trigger] accepted(start, t) implies !same_upto(t, s, idx) by {
        if same_upto(t, s, idx) {
            assert(start[idx].admits(t[idx]));
            assert(start[idx].cleared() == start[idx]);
            let m = choose|m: int| 0 <= m < p.len() && p[m] == t[idx];
            assert(t[idx] != p[m]);
        }
    }
}

/// Coming back to a filled cell: with its choice taken back, the candidates
/// up to the one it held are shut out.
pub proof fn lemma_resume(start: Seq<Choice>, cur: Seq<Choice>, idx: int)
    requires
        search_state(start, cur, idx + 1),
        0 <= idx,
        !start[idx].settled(),
        none_before(start, shown_digits(cur), idx + 1),
        none_along(start, shown_digits(cur), idx + 1),
    ensures
        search_state(start, retract(cur, idx), idx),
        none_before(start, shown_digits(retract(cur, idx)), idx),
        shut(
            start,
            shown_digits(retract(cur, idx)),
            idx,
            start[idx].list(),
            cur[idx].chosen() + 1,
        ),
        forall|m: int| guess(retract(cur, idx), idx, m) == guess(cur, idx, m),
{
    let p = start[idx].list();
    let s = shown_digits(cur);
    let back = retract(cur, idx);
    let s0 = shown_digits(back);
    let g0 = cur[idx].chosen();
    assert(cur[idx].cleared() == start[idx]);
    assert(cur[idx].wf());
    assert(!cur[idx].vacant());
    assert(cur[idx] == Choice::Filled(g0, p));
    assert forall|i: int| 0 <= i < 81 implies (#[trigger] back[i]).wf() && back[i].cleared()
        == start[i] by {
        assert(cur[i].wf());
        assert(cur[i].cleared() == start[i]);
        assert(start[i].cleared() == start[i]);
    }
    assert forall|i: int| 0 <= i < idx && !(#[trigger] start[i]).settled() implies passes_at(
        start,
        s0,
        i,
    ) by {
        assert(passes_at(start, s, i));
        lemma_passes_local(start, s, s0, i);
    }
    assert forall|t: Seq<u8>| #[trigger] accepted(start, t) implies !precedes(t, s0, idx) by {
        if precedes(t, s0, idx) {
            let j = choose|j: int| 0 <= j < idx && t[j] < s0[j] && #[trigger] same_upto(t, s0, j);
            assert(same_upto(t, s, j));
            assert(t[j] < s[j]);
            assert(precedes(t, s, idx + 1));
        }
    }
    assert forall|t: Seq<u8>| #[trigger] accepted(start, t) && same_upto(t, s0, idx) implies forall|
        m: int,
    |
        0 <= m < g0 + 1 && m < p.len() ==> t[idx] != #[trigger] p[m] by {
        assert forall|m: int| 0 <= m < g0 + 1 && m < p.len() implies t[idx] != #[trigger] p[m] by {
            if t[idx] == p[m] {
                assert(same_upto(t, s, idx));
                if m == g0 {
                    assert(same_upto(t, s, idx + 1));
                } else {
                    assert(p[m] < p[g0]);
                    assert(t[idx] < s[idx]);
                    assert(precedes(t, s, idx + 1));
                }
            }
        }
    }
    assert forall|m: int| guess(back, idx, m) == guess(cur, idx, m) by {
        assert(guess(back, idx, m) =~= guess(cur, idx, m));
    }
}

/// Going forward over a settled cell.
pub proof fn lemma_skip_forward(start: Seq<Choice>, cur: Seq<Choice>, idx: int)
    requires
        search_state(start, cur, idx),
        idx < 81,
        start[idx].settled(),
        none_before(start, shown_digits(cur), idx),
    ensures
        search_state(start, cur, idx + 1),
        none_before(start, shown_digits(cur), idx + 1),
{
    let s = shown_digits(cur);
    assert(cur[idx] == start[idx]);
    assert forall|t: Seq<u8>| #[trigger] accepted(start, t) implies !precedes(t, s, idx + 1) by {
        if precedes(t, s, idx + 1) {
            let j = choose|j: int| 0 <= j < idx + 1 && t[j] < s[j] && #[trigger] same_upto(t, s, j);
            if j < idx {
                assert(precedes(t, s, idx));
            } else {
                assert(start[idx].admits(t[idx]));
            }
        }
    }
}

/// Going back over a settled cell.
pub proof fn lemma_skip_backward(start: Seq<Choice>, cur: Seq<Choice>, idx: int)
    requires
        search_state(start, cur, idx + 1),
        0 <= idx,
        start[idx].settled(),
        none_before(start, shown_digits(cur), idx + 1),
        none_along(start, shown_digits(cur), idx + 1),
    ensures
        search_state(start, cur, idx),
        none_before(start, shown_digits(cur), idx),
        none_along(start, shown_digits(cur), idx),
{
    let s = shown_digits(cur);
    assert(cur[idx].cleared() == start[idx]);
    assert(cur[idx] == start[idx]);
    assert forall|t: Seq<u8>| #[trigger] accepted(start, t) implies !precedes(t, s, idx)
        && !same_upto(t, s, idx) by {
        if precedes(t, s, idx) {
            let j = choose|j: int| 0 <= j < idx && t[j] < s[j] && #[trigger] same_upto(t, s, j);
            assert(precedes(t, s, idx + 1));
        }
        if same_upto(t, s, idx) {
            assert(start[idx].admits(t[idx]));
            assert(same_upto(t, s, idx + 1));
        }
    }
}

/// With all cells resolved, the grid shows the first accepted filling.
pub proof fn lemma_search_done(start: Seq<Choice>, cur: Seq<Choice>)
    requires
        search_state(start, cur, 81),
        none_before(start, shown_digits(cur), 81),
    ensures
        first_accepted(start, shown_digits(cur)),
{
    let s = shown_digits(cur);
    assert forall|i: int| 0 <= i < 81 implies (#[trigger] start[i]).admits(s[i]) by {
        assert(cur[i].cleared() == start[i]);
        assert(cur[i].wf());
        assert(!cur[i].vacant());
        match cur[i] {
            Choice::Filled(g, p) => {
                assert(p[g] == s[i]);
            },
            _ => {},
        }
    }
}

} // verus!

//! Short lists of digits: the duplicate test, the difference of two lists,
//! and what holds of candidate lists kept in ascending order.

use vstd::prelude::*;

verus! {

/// The entries of `t` that are not blank, in their order.
pub open spec fn present(t: Seq<u8>) -> Seq<u8> {
    t.filter(|d: u8| d != 0)
}

/// The entries of `p` that `gone` does not hold, in their order.
pub open spec fn strike(p: Seq<u8>, gone: Set<u8>) -> Seq<u8> {
    p.filter(|d: u8| !gone.contains(d))
}

/// Each entry is smaller than the one after it.
pub open spec fn ascending(p: Seq<u8>) -> bool {
    forall|i: int, j: int| 0 <= i < j < p.len() ==> p[i] < p[j]
}

/// A candidate list: digits 1 to 9 in ascending order.
pub open spec fn digit_list(p: Seq<u8>) -> bool {
    &&& ascending(p)
    &&& forall|i: int| 0 <= i < p.len() ==> 1 <= #[trigger] p[i] <= 9
}

/// No non-blank entry of `t` occurs at two places.
pub open spec fn present_distinct(t: Seq<u8>) -> bool {
    forall|i: int, j: int| 0 <= i < t.len() && 0 <= j < t.len() && i != j && t[i] != 0 ==> t[i] != t[j]
}

/// Whether no digit occurs twice in `slice`.
pub fn is_unique(slice: &[u8]) -> (res: bool)
    ensures
        res == slice@.no_duplicates(),
{
    let n: usize = slice.len();
    let mut i: usize = 0;
    while i < n
        invariant
            n == slice@.len(),
            i <= n,
            forall|a: int, b: int| 0 <= a < i && a < b < n ==> slice@[a] != slice@[b],
        decreases n - i,
    {
        let mut j: usize = i + 1;
        while j < n
            invariant
                n == slice@.len(),
                i < n,
                i < j <= n,
                forall|b: int| i < b < j ==> slice@[i as int] != slice@[b],
            decreases n - j,
        {
            if slice[i] == slice[j] {
                return false;
            }
            j += 1;
        }
        i += 1;
    }
    true
}

/// The entries of `left` that do not occur in `right`, in their order.
pub fn difference(left: &[u8], right: &[u8]) -> (res: Vec<u8>)
    ensures
        res@ == strike(left@, right@.to_set()),
{
    let ghost gone = right@.to_set();
    let ghost keep = |d: u8| !gone.contains(d);
    let mut kept: Vec<u8> = Vec::new();
    let mut i: usize = 0;
    proof {
        assert(left@.take(0) =~= Seq::<u8>::empty());
        reveal(Seq::filter);
    }
    while i < left.len()
        invariant
            i <= left@.len(),
            gone == right@.to_set(),
            keep == |d: u8| !gone.contains(d),
            kept@ == left@.take(i as int).filter(keep),
        decreases left@.len() - i,
    {
        let x: u8 = left[i];
        let found: bool = holds(right, x);
        proof {
            assert(left@.take(i + 1) =~= left@.take(i as int).push(x));
            left@.take(i as int).lemma_filter_push(x, keep);
        }
        if !found {
            kept.push(x);
        }
        i += 1;
    }
    proof {
        assert(left@.take(left@.len() as int) =~= left@);
    }
    kept
}

/// Whether `x` occurs in `list`.
fn holds(list: &[u8], x: u8) -> (res: bool)
    ensures
        res == list@.contains(x),
{
    let mut i: usize = 0;
    while i < list.len()
        invariant
            i <= list@.len(),
            forall|a: int| 0 <= a < i ==> list@[a] != x,
        decreases list@.len() - i,
    {
        if list[i] == x {
            return true;
        }
        i += 1;
    }
    false
}

/// What is left of a list after filtering holds only entries of the list,
/// and keeps their order.
pub proof fn lemma_filter_keeps_order(p: Seq<u8>, keep: spec_fn(u8) -> bool)
    requires
        digit_list(p),
    ensures
        digit_list(p.filter(keep)),
        forall|x: u8| p.filter(keep).contains(x) <==> p.contains(x) && keep(x),
        p.filter(keep).len() <= p.len(),
        p.filter(keep).len() == p.len() ==> p.filter(keep) == p,
    decreases p.len(),
{
    reveal(Seq::filter);
    let out = p.filter(keep);
    if p.len() > 0 {
        let front = p.drop_last();
        let sub = front.filter(keep);
        lemma_filter_keeps_order(front, keep);
        assert forall|x: u8| out.contains(x) <==> p.contains(x) && keep(x) by {
            if out.contains(x) {
                let i = choose|i: int| 0 <= i < out.len() && out[i] == x;
                if i < sub.len() {
                    assert(sub.contains(x));
                    assert(front.contains(x));
                    let j = choose|j: int| 0 <= j < front.len() && front[j] == x;
                    assert(p[j] == x);
                } else {
                    assert(x == p.last());
                    assert(p[p.len() - 1] == x);
                }
            }
            if p.contains(x) && keep(x) {
                let j = choose|j: int| 0 <= j < p.len() && p[j] == x;
                if j < front.len() {
                    assert(front[j] == x);
                    assert(front.contains(x));
                    assert(sub.contains(x));
                    let i = choose|i: int| 0 <= i < sub.len() && sub[i] == x;
                    assert(out[i] == x);
                } else {
                    assert(out[out.len() - 1] == x);
                }
            }
        }
        assert forall|i: int, j: int| 0 <= i < j < out.len() implies out[i] < out[j] by {
            if j < sub.len() {
                assert(out[i] == sub[i] && out[j] == sub[j]);
            } else {
                assert(out[j] == p.last());
                assert(sub.contains(sub[i]));
                assert(front.contains(sub[i]));
                let k = choose|k: int| 0 <= k < front.len() && front[k] == sub[i];
                assert(p[k] < p[p.len() - 1]);
            }
        }
        assert forall|i: int| 0 <= i < out.len() implies 1 <= #[trigger] out[i] <= 9 by {
            assert(out.contains(out[i]));
            assert(p.contains(out[i]));
        }
        if out.len() == p.len() {
            assert(sub.len() == front.len());
            assert(out =~= p);
        }
    } else {
        assert(out =~= p);
    }
}

/// The non-blank entries of a list are free of duplicates exactly when no
/// non-blank entry of the list occurs at two places.
pub proof fn lemma_present_distinct(t: Seq<u8>)
    ensures
        present(t).no_duplicates() <==> present_distinct(t),
    decreases t.len(),
{
    reveal(Seq::filter);
    let keep = |d: u8| d != 0;
    let out = t.filter(keep);
    if t.len() > 0 {
        let front = t.drop_last();
        let sub = front.filter(keep);
        let x = t.last();
        lemma_present_distinct(front);
        if present_distinct(t) {
            assert forall|i: int, j: int|
                0 <= i < front.len() && 0 <= j < front.len() && i != j && front[i]
                    != 0 implies front[i] != front[j] by {
                assert(t[i] != t[j]);
            }
            assert(sub.no_duplicates());
            if x != 0 {
                assert forall|i: int| 0 <= i < sub.len() implies sub[i] != x by {
                    assert(sub.contains(sub[i]));
                    lemma_filter_source(front, keep, sub[i]);
                    let k = choose|k: int| 0 <= k < front.len() && front[k] == sub[i];
                    assert(t[k] != t[t.len() - 1]);
                }
            }
            assert(out.no_duplicates());
        }
        if out.no_duplicates() {
            assert forall|i: int, j: int| 0 <= i < j < sub.len() implies sub[i] != sub[j] by {
                assert(out[i] == sub[i] && out[j] == sub[j]);
            }
            assert(sub.no_duplicates());
            assert forall|i: int, j: int|
                0 <= i < t.len() && 0 <= j < t.len() && i != j && t[i] != 0 implies t[i]
                != t[j] by {
                if i < front.len() && j < front.len() {
                    assert(front[i] != front[j]);
                } else {
                    let k = if i < front.len() {
                        i
                    } else {
                        j
                    };
                    if t[i] == t[j] {
                        assert(x != 0 && front[k] == x);
                        front.lemma_filter_contains(keep, k);
                        assert(sub.contains(front[k]));
                        let m = choose|m: int| 0 <= m < sub.len() && sub[m] == x;
                        assert(out[m] == x && out[out.len() - 1] == x);
                    }
                }
            }
        }
    }
}

/// Every entry of a filtered list is an entry of the list.
pub proof fn lemma_filter_source(t: Seq<u8>, keep: spec_fn(u8) -> bool, x: u8)
    requires
        t.filter(keep).contains(x),
    ensures
        t.contains(x),
        keep(x),
    decreases t.len(),
{
    reveal(Seq::filter);
    let out = t.filter(keep);
    let i = choose|i: int| 0 <= i < out.len() && out[i] == x;
    if t.len() > 0 {
        let front = t.drop_last();
        let sub = front.filter(keep);
        if i < sub.len() {
            assert(sub[i] == x);
            assert(sub.contains(x));
            lemma_filter_source(front, keep, x);
            let k = choose|k: int| 0 <= k < front.len() && front[k] == x;
            assert(t[k] == x);
        } else {
            assert(t[t.len() - 1] == x);
        }
    }
}

} // verus!

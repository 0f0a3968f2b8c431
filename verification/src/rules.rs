//! The rule of the game on a grid of digits: no digit twice in a row, a
//! column or a box. Blanks (0) are not digits.

use vstd::prelude::*;
use crate::geometry::{
    block_cell, block_seq, blocks, col_of, lemma_block_cell_in_unit, lemma_position_in_one_block,
    peers, place_in_unit, row_of, unit_cell, unit_of,
};
use crate::lists::{is_unique, lemma_present_distinct, present, present_distinct};
use vstd::set_lib::{lemma_int_range, lemma_len_subset, set_int_range};

verus! {

/// No digit stands at two positions of unit `k` of the given kind.
pub open spec fn unit_distinct(d: Seq<u8>, kind: int, k: int) -> bool {
    forall|a: int, b: int|
        0 <= a < 81 && 0 <= b < 81 && a != b && unit_of(kind, a) == k && unit_of(kind, b) == k
            && d[a] != 0 ==> d[a] != d[b]
}

/// No digit stands twice in any row, column or box.
pub open spec fn consistent(d: Seq<u8>) -> bool {
    forall|kind: int, k: int| 0 <= kind < 3 && 0 <= k < 9 ==> #[trigger] unit_distinct(d, kind, k)
}

/// The row, the column and the box of position `p` each hold no digit twice.
pub open spec fn distinct_around(d: Seq<u8>, p: int) -> bool {
    forall|kind: int| 0 <= kind < 3 ==> #[trigger] unit_distinct(d, kind, unit_of(kind, p))
}

/// Every cell holds a digit 1 to 9.
pub open spec fn filled(s: Seq<u8>) -> bool {
    &&& s.len() == 81
    &&& forall|i: int| 0 <= i < 81 ==> 1 <= #[trigger] s[i] <= 9
}

/// `s` keeps every given digit of `v`.
pub open spec fn keeps_givens(v: Seq<u8>, s: Seq<u8>) -> bool {
    forall|i: int| 0 <= i < 81 && v[i] != 0 ==> #[trigger] s[i] == v[i]
}

/// `s` solves the puzzle `v`: it is a full grid of digits that keeps the
/// givens and obeys the rule.
pub open spec fn completes(v: Seq<u8>, s: Seq<u8>) -> bool {
    &&& filled(s)
    &&& keeps_givens(v, s)
    &&& consistent(s)
}

/// The digits of block `b`, in the order the block lists its positions.
pub open spec fn block_digits(d: Seq<u8>, b: int) -> Seq<u8> {
    Seq::new(9, |j: int| d[block_cell(b, j)])
}

/// A unit holds no digit twice exactly when the non-blank digits of its
/// block, listed in order, are free of duplicates.
pub proof fn lemma_unit_distinct_by_block(d: Seq<u8>, kind: int, k: int)
    requires
        d.len() == 81,
        0 <= kind < 3,
        0 <= k < 9,
    ensures
        unit_distinct(d, kind, k) <==> present(block_digits(d, 9 * kind + k)).no_duplicates(),
{
    let t = block_digits(d, 9 * kind + k);
    lemma_present_distinct(t);
    assert forall|j: int| 0 <= j < 9 implies t[j] == d[unit_cell(kind, k, j)] && 0 <= unit_cell(
        kind,
        k,
        j,
    ) < 81 && unit_of(kind, unit_cell(kind, k, j)) == k by {
        lemma_block_cell_in_unit(kind, k, j);
    }
    if unit_distinct(d, kind, k) {
        assert forall|i: int, j: int|
            0 <= i < t.len() && 0 <= j < t.len() && i != j && t[i] != 0 implies t[i] != t[j] by {
            lemma_block_cell_in_unit(kind, k, i);
            lemma_block_cell_in_unit(kind, k, j);
            let a = unit_cell(kind, k, i);
            let b = unit_cell(kind, k, j);
            assert(a != b);
            assert(d[a] != d[b]);
        }
    }
    if present_distinct(t) {
        assert forall|a: int, b: int|
            0 <= a < 81 && 0 <= b < 81 && a != b && unit_of(kind, a) == k && unit_of(kind, b) == k
                && d[a] != 0 implies d[a] != d[b] by {
            lemma_position_in_one_block(kind, a);
            lemma_position_in_one_block(kind, b);
            let i = place_in_unit(kind, a);
            let j = place_in_unit(kind, b);
            assert(t[i] == d[a] && t[j] == d[b]);
            assert(i != j);
        }
    }
}

/// A grid is consistent exactly when no two positions that share a row, a
/// column or a box hold the same digit.
pub proof fn lemma_consistent_by_peers(d: Seq<u8>)
    requires
        d.len() == 81,
    ensures
        consistent(d) <==> (forall|a: int, b: int|
            0 <= a < 81 && 0 <= b < 81 && peers(a, b) && d[a] != 0 ==> d[a] != d[b]),
{
    if consistent(d) {
        assert forall|a: int, b: int|
            0 <= a < 81 && 0 <= b < 81 && peers(a, b) && d[a] != 0 implies d[a] != d[b] by {
            let kind: int = if row_of(a) == row_of(b) {
                0
            } else if col_of(a) == col_of(b) {
                1
            } else {
                2
            };
            lemma_position_in_one_block(kind, a);
            assert(unit_distinct(d, kind, unit_of(kind, a)));
        }
    }
    if forall|a: int, b: int|
        0 <= a < 81 && 0 <= b < 81 && peers(a, b) && d[a] != 0 ==> d[a] != d[b] {
        assert forall|kind: int, k: int| 0 <= kind < 3 && 0 <= k < 9 implies #[trigger] unit_distinct(
            d,
            kind,
            k,
        ) by {
            assert forall|a: int, b: int|
                0 <= a < 81 && 0 <= b < 81 && a != b && unit_of(kind, a) == k && unit_of(kind, b)
                    == k && d[a] != 0 implies d[a] != d[b] by {
                assert(peers(a, b));
            }
        }
    }
}

/// In a full grid of digits, a unit that holds no digit twice holds every
/// digit: nine distinct digits out of nine.
pub proof fn lemma_unit_holds_digit(s: Seq<u8>, kind: int, k: int, d: u8)
    requires
        filled(s),
        0 <= kind < 3,
        0 <= k < 9,
        unit_distinct(s, kind, k),
        1 <= d <= 9,
    ensures
        exists|j: int| 0 <= j < 9 && s[#[trigger] unit_cell(kind, k, j)] == d,
{
    let t = Seq::new(9, |j: int| s[unit_cell(kind, k, j)] as int);
    assert forall|i: int, j: int| 0 <= i < 9 && 0 <= j < 9 && i != j implies t[i] != t[j] by {
        lemma_block_cell_in_unit(kind, k, i);
        lemma_block_cell_in_unit(kind, k, j);
        let a = unit_cell(kind, k, i);
        let b = unit_cell(kind, k, j);
        assert(a != b);
        assert(s[a] != s[b]);
    }
    assert(t.no_duplicates());
    t.unique_seq_to_set();
    if !exists|j: int| 0 <= j < 9 && s[#[trigger] unit_cell(kind, k, j)] == d {
        let others = set_int_range(1, 10).remove(d as int);
        lemma_int_range(1, 10);
        assert forall|x: int| t.to_set().contains(x) implies others.contains(x) by {
            let j = choose|j: int| 0 <= j < t.len() && t[j] == x;
            lemma_block_cell_in_unit(kind, k, j);
            assert(s[unit_cell(kind, k, j)] != d);
        }
        assert(t.to_set().subset_of(others));
        lemma_len_subset(t.to_set(), others);
        assert(false);
    }
}

/// Whether the non-blank digits of `v` at the positions of `block` are
/// free of duplicates.
fn block_is_distinct(v: &[u8], block: &Vec<usize>) -> (res: bool)
    requires
        v@.len() == 81,
        block@.len() == 9,
        forall|j: int| 0 <= j < 9 ==> #[trigger] block@[j] < 81,
    ensures
        res == present(Seq::new(9, |j: int| v@[block@[j] as int])).no_duplicates(),
{
    let ghost t = Seq::new(9, |j: int| v@[block@[j] as int]);
    let ghost keep = |d: u8| d != 0;
    let mut digits: Vec<u8> = Vec::new();
    let mut j: usize = 0;
    proof {
        assert(t.take(0) =~= Seq::<u8>::empty());
        reveal(Seq::filter);
    }
    while j < 9
        invariant
            j <= 9,
            v@.len() == 81,
            block@.len() == 9,
            forall|j: int| 0 <= j < 9 ==> #[trigger] block@[j] < 81,
            t == Seq::new(9, |j: int| v@[block@[j] as int]),
            keep == |d: u8| d != 0,
            digits@ == t.take(j as int).filter(keep),
        decreases 9 - j,
    {
        let x: u8 = v[block[j]];
        proof {
            assert(t.take(j + 1) =~= t.take(j as int).push(x));
            t.take(j as int).lemma_filter_push(x, keep);
        }
        if x != 0 {
            digits.push(x);
        }
        j += 1;
    }
    proof {
        assert(t.take(9) =~= t);
    }
    is_unique(digits.as_slice())
}

/// Whether a grid of givens, 0 for a blank, holds no digit twice in any
/// row, column or box.
pub fn is_consistent(v: &[u8]) -> (res: bool)
    requires
        v@.len() == 81,
    ensures
        res == consistent(v@),
{
    let all: Vec<Vec<usize>> = blocks();
    let mut b: usize = 0;
    while b < 27
        invariant
            b <= 27,
            v@.len() == 81,
            all@.len() == 27,
            forall|c: int| 0 <= c < 27 ==> (#[trigger] all@[c])@ == block_seq(c),
            forall|kind: int, k: int|
                0 <= kind < 3 && 0 <= k < 9 && 9 * kind + k < b ==> #[trigger] unit_distinct(
                    v@,
                    kind,
                    k,
                ),
        decreases 27 - b,
    {
        let ghost kind = b as int / 9;
        let ghost k = b as int % 9;
        proof {
            assert forall|j: int| 0 <= j < 9 implies #[trigger] all@[b as int]@[j] < 81 by {
                lemma_block_cell_in_unit(kind, k, j);
            }
            assert(Seq::new(9, |j: int| v@[all@[b as int]@[j] as int]) =~= block_digits(
                v@,
                b as int,
            ));
            lemma_unit_distinct_by_block(v@, kind, k);
        }
        if !block_is_distinct(v, &all[b]) {
            return false;
        }
        b += 1;
    }
    true
}

} // verus!

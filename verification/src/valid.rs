//! The test the search makes after each tentative choice: whether the row,
//! the column and the box of the changed cell still hold no digit twice.

use vstd::prelude::*;
use crate::cells::{choices, choices_wf, shown_digits, SearchCell};
use crate::geometry::{
    block_cell, boxes, cols, lemma_block_cell_in_unit, lemma_position_in_one_block, rows, unit_of,
};
use crate::lists::{is_unique, present};
use crate::rules::{block_digits, distinct_around, lemma_unit_distinct_by_block, unit_distinct};

verus! {

/// The digits that the cells of `block` show, vacant cells left out.
fn shown_in_block(search_grid: &[SearchCell], block: &Vec<usize>) -> (digits: Vec<u8>)
    requires
        choices_wf(choices(search_grid@)),
        block@.len() == 9,
        forall|j: int| 0 <= j < 9 ==> #[trigger] block@[j] < 81,
    ensures
        digits@ == present(
            Seq::new(9, |j: int| shown_digits(choices(search_grid@))[block@[j] as int]),
        ),
{
    let ghost d = shown_digits(choices(search_grid@));
    let ghost t = Seq::new(9, |j: int| d[block@[j] as int]);
    let ghost keep = |x: u8| x != 0;
    let mut digits: Vec<u8> = Vec::new();
    let mut j: usize = 0;
    proof {
        assert(t.take(0) =~= Seq::<u8>::empty());
        reveal(Seq::filter);
    }
    while j < 9
        invariant
            j <= 9,
            choices_wf(choices(search_grid@)),
            block@.len() == 9,
            forall|j: int| 0 <= j < 9 ==> #[trigger] block@[j] < 81,
            d == shown_digits(choices(search_grid@)),
            t == Seq::new(9, |j: int| d[block@[j] as int]),
            keep == |x: u8| x != 0,
            digits@ == t.take(j as int).filter(keep),
        decreases 9 - j,
    {
        let at: usize = block[j];
        proof {
            assert(choices(search_grid@)[at as int].wf());
            assert(t.take(j + 1) =~= t.take(j as int).push(t[j as int]));
            t.take(j as int).lemma_filter_push(t[j as int], keep);
        }
        match &search_grid[at] {
            SearchCell::Fixed(x) => {
                digits.push(*x);
            },
            SearchCell::Filled(guess_idx, p) => {
                digits.push(p[*guess_idx]);
            },
            SearchCell::Vacant(_) => {},
        }
        j += 1;
    }
    proof {
        assert(t.take(9) =~= t);
    }
    digits
}

/// Whether the row, the column and the box of position `idx` each show no
/// digit twice. Vacant cells show nothing.
pub fn is_valid(search_grid: &[SearchCell], idx: usize) -> (res: bool)
    requires
        choices_wf(choices(search_grid@)),
        idx < 81,
    ensures
        res == distinct_around(shown_digits(choices(search_grid@)), idx as int),
{
    let ghost d = shown_digits(choices(search_grid@));
    let row_idx: usize = idx / 9;
    let col_idx: usize = idx % 9;
    let box_idx: usize = 3 * (row_idx / 3) + col_idx / 3;
    let mut kind: usize = 0;
    proof {
        lemma_position_in_one_block(0, idx as int);
        lemma_position_in_one_block(1, idx as int);
        lemma_position_in_one_block(2, idx as int);
    }
    while kind < 3
        invariant
            kind <= 3,
            idx < 81,
            choices_wf(choices(search_grid@)),
            d == shown_digits(choices(search_grid@)),
            row_idx == unit_of(0, idx as int),
            col_idx == unit_of(1, idx as int),
            box_idx == unit_of(2, idx as int),
            row_idx < 9,
            col_idx < 9,
            box_idx < 9,
            forall|kd: int| 0 <= kd < kind ==> #[trigger] unit_distinct(d, kd, unit_of(kd, idx as int)),
        decreases 3 - kind,
    {
        let table: Vec<Vec<usize>> = if kind == 0 {
            rows()
        } else if kind == 1 {
            cols()
        } else {
            boxes()
        };
        let k: usize = if kind == 0 {
            row_idx
        } else if kind == 1 {
            col_idx
        } else {
            box_idx
        };
        proof {
            assert forall|j: int| 0 <= j < 9 implies #[trigger] table@[k as int]@[j] < 81
                && table@[k as int]@[j] == block_cell(9 * kind + k, j) by {
                lemma_block_cell_in_unit(kind as int, k as int, j);
            }
            assert(Seq::new(9, |j: int| d[table@[k as int]@[j] as int]) =~= block_digits(
                d,
                9 * kind + k,
            ));
            lemma_unit_distinct_by_block(d, kind as int, k as int);
        }
        let digits: Vec<u8> = shown_in_block(search_grid, &table[k]);
        if !is_unique(digits.as_slice()) {
            return false;
        }
        kind += 1;
    }
    true
}

} // verus!

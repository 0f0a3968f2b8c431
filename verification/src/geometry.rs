//! The layout of the 9×9 grid: positions, the row, column and box each
//! position lies in, and the 27 blocks that must hold distinct digits.

use vstd::prelude::*;

verus! {

/// Row of a position.
pub open spec fn row_of(p: int) -> int {
    p / 9
}

/// Column of a position.
pub open spec fn col_of(p: int) -> int {
    p % 9
}

/// Box of a position; boxes are numbered left to right, then top to bottom.
pub open spec fn box_of(p: int) -> int {
    3 * (row_of(p) / 3) + col_of(p) / 3
}

/// The `j`-th position of row `i`.
pub open spec fn row_cell(i: int, j: int) -> int {
    9 * i + j
}

/// The `j`-th position of column `i`.
pub open spec fn col_cell(i: int, j: int) -> int {
    i + 9 * j
}

/// The `j`-th position of box `k`.
pub open spec fn box_cell(k: int, j: int) -> int {
    27 * (k / 3) + 3 * (k % 3) + 9 * (j / 3) + j % 3
}

/// The unit of the given kind (0: row, 1: column, 2: box) that holds `p`.
pub open spec fn unit_of(kind: int, p: int) -> int {
    if kind == 0 {
        row_of(p)
    } else if kind == 1 {
        col_of(p)
    } else {
        box_of(p)
    }
}

/// The `j`-th position of unit `k` of the given kind.
pub open spec fn unit_cell(kind: int, k: int, j: int) -> int {
    if kind == 0 {
        row_cell(k, j)
    } else if kind == 1 {
        col_cell(k, j)
    } else {
        box_cell(k, j)
    }
}

/// The `j`-th position of block `b`, where blocks 0..9 are the rows,
/// 9..18 the columns and 18..27 the boxes.
pub open spec fn block_cell(b: int, j: int) -> int {
    unit_cell(b / 9, b % 9, j)
}

/// The positions of block `b`, in order.
pub open spec fn block_seq(b: int) -> Seq<usize> {
    Seq::new(9, |j: int| block_cell(b, j) as usize)
}

/// Where `p` stands inside its unit of the given kind.
pub open spec fn place_in_unit(kind: int, p: int) -> int {
    if kind == 0 {
        p % 9
    } else if kind == 1 {
        p / 9
    } else {
        3 * ((p / 9) % 3) + p % 3
    }
}

/// Two distinct positions that share a row, a column or a box.
pub open spec fn peers(a: int, b: int) -> bool {
    a != b && (row_of(a) == row_of(b) || col_of(a) == col_of(b) || box_of(a) == box_of(b))
}

/// `t` lists nine blocks of nine positions each, the blocks numbered
/// `first`, `first + 1`, ... in the numbering of `block_cell`.
pub open spec fn is_block_table(t: Seq<Vec<usize>>, first: int) -> bool {
    &&& t.len() == 9
    &&& forall|i: int| 0 <= i < 9 ==> (#[trigger] t[i])@.len() == 9
    &&& forall|i: int, j: int|
        0 <= i < 9 && 0 <= j < 9 ==> #[trigger] t[i]@[j] == block_cell(first + i, j)
}

/// Every cell of a block is a position of the grid, lies in the unit the
/// block stands for, and stands there at the place it is listed at.
pub proof fn lemma_block_cell_in_unit(kind: int, k: int, j: int)
    requires
        0 <= kind < 3,
        0 <= k < 9,
        0 <= j < 9,
    ensures
        0 <= unit_cell(kind, k, j) < 81,
        unit_of(kind, unit_cell(kind, k, j)) == k,
        place_in_unit(kind, unit_cell(kind, k, j)) == j,
        block_cell(9 * kind + k, j) == unit_cell(kind, k, j),
{
    assert((9 * kind + k) / 9 == kind && (9 * kind + k) % 9 == k);
    if kind == 0 {
        let p = 9 * k + j;
        assert(p / 9 == k && p % 9 == j);
    } else if kind == 1 {
        let p = k + 9 * j;
        assert(p / 9 == j && p % 9 == k);
    } else {
        lemma_box_of_split(k / 3, j / 3, k % 3, j % 3);
    }
}

/// A position written by its band, its row in the band, its stack and its
/// column in the stack, taken apart again.
proof fn lemma_box_of_split(band: int, r: int, stack: int, c: int)
    requires
        0 <= band < 3,
        0 <= r < 3,
        0 <= stack < 3,
        0 <= c < 3,
    ensures
        ({
            let p = 27 * band + 9 * r + 3 * stack + c;
            &&& (p / 9) / 3 == band
            &&& p / 9 == 3 * band + r
            &&& p % 9 == 3 * stack + c
            &&& (p % 9) / 3 == stack
            &&& (p / 9) % 3 == r
            &&& p % 3 == c
        }),
{
    let p = 27 * band + 9 * r + 3 * stack + c;
    assert(p == 27 * band + (9 * r + 3 * stack + c));
    assert(p == 9 * (3 * band + r) + (3 * stack + c));
    assert(p == 3 * (9 * band + 3 * r + stack) + c);
    assert(p / 9 == 3 * band + r);
    assert(p % 9 == 3 * stack + c);
}

/// Every position is listed in the row, the column and the box it lies in,
/// and in each of them exactly once.
pub proof fn lemma_position_in_one_block(kind: int, p: int)
    requires
        0 <= kind < 3,
        0 <= p < 81,
    ensures
        0 <= unit_of(kind, p) < 9,
        0 <= place_in_unit(kind, p) < 9,
        unit_cell(kind, unit_of(kind, p), place_in_unit(kind, p)) == p,
        forall|k: int, j: int|
            0 <= k < 9 && 0 <= j < 9 && #[trigger] unit_cell(kind, k, j) == p ==> k == unit_of(
                kind,
                p,
            ) && j == place_in_unit(kind, p),
{
    assert forall|k: int, j: int|
        0 <= k < 9 && 0 <= j < 9 && #[trigger] unit_cell(kind, k, j) == p implies k == unit_of(
        kind,
        p,
    ) && j == place_in_unit(kind, p) by {
        lemma_block_cell_in_unit(kind, k, j);
    }
}

/// The nine rows, top to bottom, each left to right.
pub fn rows() -> (res: Vec<Vec<usize>>)
    ensures
        is_block_table(res@, 0),
{
    let mut table: Vec<Vec<usize>> = Vec::new();
    let mut i: usize = 0;
    while i < 9
        invariant
            i <= 9,
            table@.len() == i,
            forall|a: int| 0 <= a < i ==> (#[trigger] table@[a])@.len() == 9,
            forall|a: int, j: int|
                0 <= a < i && 0 <= j < 9 ==> #[trigger] table@[a]@[j] == row_cell(a, j),
        decreases 9 - i,
    {
        let mut block: Vec<usize> = Vec::new();
        let mut j: usize = 0;
        while j < 9
            invariant
                i < 9,
                j <= 9,
                block@.len() == j,
                forall|b: int| 0 <= b < j ==> #[trigger] block@[b] == row_cell(i as int, b),
            decreases 9 - j,
        {
            block.push(9 * i + j);
            j += 1;
        }
        table.push(block);
        i += 1;
    }
    table
}

/// The nine columns, left to right, each top to bottom.
pub fn cols() -> (res: Vec<Vec<usize>>)
    ensures
        is_block_table(res@, 9),
{
    let mut table: Vec<Vec<usize>> = Vec::new();
    let mut i: usize = 0;
    while i < 9
        invariant
            i <= 9,
            table@.len() == i,
            forall|a: int| 0 <= a < i ==> (#[trigger] table@[a])@.len() == 9,
            forall|a: int, j: int|
                0 <= a < i && 0 <= j < 9 ==> #[trigger] table@[a]@[j] == col_cell(a, j),
        decreases 9 - i,
    {
        let mut block: Vec<usize> = Vec::new();
        let mut j: usize = 0;
        while j < 9
            invariant
                i < 9,
                j <= 9,
                block@.len() == j,
                forall|b: int| 0 <= b < j ==> #[trigger] block@[b] == col_cell(i as int, b),
            decreases 9 - j,
        {
            block.push(i + 9 * j);
            j += 1;
        }
        table.push(block);
        i += 1;
    }
    table
}

/// The nine boxes, numbered left to right and then top to bottom, each
/// listed row by row.
pub fn boxes() -> (res: Vec<Vec<usize>>)
    ensures
        is_block_table(res@, 18),
{
    let mut table: Vec<Vec<usize>> = Vec::new();
    let mut k: usize = 0;
    while k < 9
        invariant
            k <= 9,
            table@.len() == k,
            forall|a: int| 0 <= a < k ==> (#[trigger] table@[a])@.len() == 9,
            forall|a: int, j: int|
                0 <= a < k && 0 <= j < 9 ==> #[trigger] table@[a]@[j] == box_cell(a, j),
        decreases 9 - k,
    {
        let corner: usize = 27 * (k / 3) + 3 * (k % 3);
        let mut block: Vec<usize> = Vec::new();
        let mut j: usize = 0;
        while j < 9
            invariant
                k < 9,
                j <= 9,
                corner == 27 * (k / 3) + 3 * (k % 3),
                block@.len() == j,
                forall|b: int| 0 <= b < j ==> #[trigger] block@[b] == box_cell(k as int, b),
            decreases 9 - j,
        {
            block.push(corner + 9 * (j / 3) + j % 3);
            j += 1;
        }
        table.push(block);
        k += 1;
    }
    table
}

/// The 27 blocks: the rows, then the columns, then the boxes.
pub fn blocks() -> (res: Vec<Vec<usize>>)
    ensures
        res@.len() == 27,
        forall|b: int| 0 <= b < 27 ==> (#[trigger] res@[b])@ == block_seq(b),
{
    let mut all: Vec<Vec<usize>> = rows();
    let mut more: Vec<Vec<usize>> = cols();
    let mut last: Vec<Vec<usize>> = boxes();
    let ghost r = all@;
    let ghost c = more@;
    let ghost x = last@;
    all.append(&mut more);
    all.append(&mut last);
    proof {
        assert forall|b: int| 0 <= b < 27 implies (#[trigger] all@[b])@ == block_seq(b) by {
            if b < 9 {
                assert(all@[b] == r[b]);
                assert(r[b]@ =~= block_seq(b));
            } else if b < 18 {
                assert(all@[b] == c[b - 9]);
                assert(c[b - 9]@ =~= block_seq(b));
            } else {
                assert(all@[b] == x[b - 18]);
                assert(x[b - 18]@ =~= block_seq(b));
            }
        }
    }
    all
}

} // verus!

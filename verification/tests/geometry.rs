use sudoku::geometry::blocks;
use sudoku::{boxes, cols, rows};

#[test]
fn test_rows() {
    assert_eq!(rows().into_iter().nth(0).unwrap(), vec![0, 1, 2, 3, 4, 5, 6, 7, 8]);
    assert_eq!(rows().into_iter().nth(4).unwrap(), vec![36, 37, 38, 39, 40, 41, 42, 43, 44]);
    assert_eq!(rows().into_iter().nth(8).unwrap(), vec![72, 73, 74, 75, 76, 77, 78, 79, 80]);
    assert_eq!(rows().into_iter().collect::<Vec<_>>().len(), 9);
    assert!(rows().into_iter().all(|v| v.len() == 9));
}

#[test]
fn test_cols() {
    assert_eq!(cols().into_iter().nth(0).unwrap(), vec![0, 9, 18, 27, 36, 45, 54, 63, 72]);
    assert_eq!(cols().into_iter().nth(8).unwrap(), vec![8, 17, 26, 35, 44, 53, 62, 71, 80]);
    assert_eq!(cols().into_iter().collect::<Vec<_>>().len(), 9);
    assert!(cols().into_iter().all(|v| v.len() == 9));
}

#[test]
fn test_boxes() {
    assert_eq!(boxes().into_iter().nth(0).unwrap(), vec![0, 1, 2, 9, 10, 11, 18, 19, 20]);
    assert_eq!(boxes().into_iter().collect::<Vec<_>>().len(), 9);
    assert!(boxes().into_iter().all(|v| v.len() == 9));
}

#[test]
fn boxes_match_the_membership_table() {
    let table: Vec<Vec<usize>> = vec![
        vec![0, 1, 2, 9, 10, 11, 18, 19, 20],
        vec![3, 4, 5, 12, 13, 14, 21, 22, 23],
        vec![6, 7, 8, 15, 16, 17, 24, 25, 26],
        vec![27, 28, 29, 36, 37, 38, 45, 46, 47],
        vec![30, 31, 32, 39, 40, 41, 48, 49, 50],
        vec![33, 34, 35, 42, 43, 44, 51, 52, 53],
        vec![54, 55, 56, 63, 64, 65, 72, 73, 74],
        vec![57, 58, 59, 66, 67, 68, 75, 76, 77],
        vec![60, 61, 62, 69, 70, 71, 78, 79, 80],
    ];
    assert_eq!(boxes(), table);
}

#[test]
fn blocks_are_restartable() {
    assert_eq!(rows(), rows());
    assert_eq!(cols(), cols());
    assert_eq!(boxes(), boxes());
}

#[test]
fn blocks_chain_rows_columns_boxes() {
    let all = blocks();
    assert_eq!(all.len(), 27);
    assert_eq!(all[..9].to_vec(), rows());
    assert_eq!(all[9..18].to_vec(), cols());
    assert_eq!(all[18..].to_vec(), boxes());
}

#[test]
fn every_position_lies_in_one_block_of_each_kind() {
    for table in [rows(), cols(), boxes()] {
        let mut seen = vec![0usize; 81];
        for block in &table {
            for &p in block {
                seen[p] += 1;
            }
        }
        assert!(seen.iter().all(|&n| n == 1));
    }
}

#[test]
fn position_maps_to_row_column_and_box() {
    let r = rows();
    let c = cols();
    let b = boxes();
    for p in 0..81usize {
        let row = p / 9;
        let col = p % 9;
        let bx = 3 * (row / 3) + col / 3;
        assert!(r[row].contains(&p));
        assert!(c[col].contains(&p));
        assert!(b[bx].contains(&p));
    }
}

use sudoku::is_consistent;

fn blank() -> Vec<u8> {
    vec![0u8; 81]
}

#[test]
fn test_is_consistent() {
    let inp = [0, 0, 0, 0, 0, 0, 0, 0, 0, 0, 0, 0, 0, 0, 0, 0, 0, 0, 0, 0, 0, 0, 0, 0, 0, 0, 0, 0, 0, 0, 0, 0, 0, 0, 0, 0, 0, 0, 0, 0, 0, 0, 0, 0, 0, 0, 0, 0, 0, 0, 0, 0, 0, 0, 0, 0, 0, 0, 0, 0, 0, 0, 0, 0, 0, 0, 0, 0, 0, 0, 0, 0, 0, 0, 0, 0, 0, 0, 0, 0, 0];
    assert!(is_consistent(&inp));

    let inp = [1, 2, 3, 0, 0, 0, 0, 0, 0, 0, 0, 0, 0, 0, 0, 0, 0, 0, 0, 0, 0, 0, 0, 0, 0, 0, 0, 0, 0, 0, 0, 0, 0, 0, 0, 0, 0, 0, 0, 0, 0, 0, 0, 0, 0, 0, 0, 0, 0, 0, 0, 0, 0, 0, 0, 0, 0, 0, 0, 0, 0, 0, 0, 0, 0, 0, 0, 0, 0, 0, 0, 0, 0, 0, 0, 0, 0, 0, 8, 9, 0];
    assert!(is_consistent(&inp));

    let inp = [1, 2, 3, 1, 0, 0, 0, 0, 0, 0, 0, 0, 0, 0, 0, 0, 0, 0, 0, 0, 0, 0, 0, 0, 0, 0, 0, 0, 0, 0, 0, 0, 0, 0, 0, 0, 0, 0, 0, 0, 0, 0, 0, 0, 0, 0, 0, 0, 0, 0, 0, 0, 0, 0, 0, 0, 0, 0, 0, 0, 0, 0, 0, 0, 0, 0, 0, 0, 0, 0, 0, 0, 0, 0, 0, 0, 0, 0, 8, 9, 1];
    assert!(!is_consistent(&inp));
}

#[test]
fn same_digit_in_unrelated_cells_is_consistent() {
    let mut v = blank();
    v[3] = 1;
    v[78] = 1;
    assert!(is_consistent(&v));
    let mut v = blank();
    v[0] = 1;
    v[80] = 1;
    assert!(is_consistent(&v));
}

#[test]
fn same_digit_at_both_ends_of_a_column_is_inconsistent() {
    let mut v = blank();
    v[3] = 1;
    v[75] = 1;
    assert!(!is_consistent(&v));
}

#[test]
fn repeat_in_a_row_is_inconsistent() {
    let mut v = blank();
    v[36] = 4;
    v[44] = 4;
    assert!(!is_consistent(&v));
}

#[test]
fn repeat_in_a_column_is_inconsistent() {
    let mut v = blank();
    v[8] = 6;
    v[80] = 6;
    assert!(!is_consistent(&v));
}

#[test]
fn repeat_in_a_box_is_inconsistent() {
    let mut v = blank();
    v[60] = 1;
    v[80] = 1;
    assert!(!is_consistent(&v));
    let mut v = blank();
    v[0] = 9;
    v[20] = 9;
    assert!(!is_consistent(&v));
}

#[test]
fn blanks_do_not_count_as_repeats() {
    let mut v = blank();
    v[0] = 5;
    assert!(is_consistent(&v));
}

#[test]
fn a_solved_grid_is_consistent() {
    let v: Vec<u8> = vec![
        5, 3, 4, 6, 7, 8, 9, 1, 2,
        6, 7, 2, 1, 9, 5, 3, 4, 8,
        1, 9, 8, 3, 4, 2, 5, 6, 7,
        8, 5, 9, 7, 6, 1, 4, 2, 3,
        4, 2, 6, 8, 5, 3, 7, 9, 1,
        7, 1, 3, 9, 2, 4, 8, 5, 6,
        9, 6, 1, 5, 3, 7, 2, 8, 4,
        2, 8, 7, 4, 1, 9, 6, 3, 5,
        3, 4, 5, 2, 8, 6, 1, 7, 9,
    ];
    assert!(is_consistent(&v));
    let mut w = v.clone();
    w[80] = 5;
    assert!(!is_consistent(&w));
}

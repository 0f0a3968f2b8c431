use sudoku::{is_consistent, solve_sudoku};

const PUZZLE: [u8; 81] = [
    5, 3, 0, 0, 7, 0, 0, 0, 0,
    6, 0, 0, 1, 9, 5, 0, 0, 0,
    0, 9, 8, 0, 0, 0, 0, 6, 0,
    8, 0, 0, 0, 6, 0, 0, 0, 3,
    4, 0, 0, 8, 0, 3, 0, 0, 1,
    7, 0, 0, 0, 2, 0, 0, 0, 6,
    0, 6, 0, 0, 0, 0, 2, 8, 0,
    0, 0, 0, 4, 1, 9, 0, 0, 5,
    0, 0, 0, 0, 8, 0, 0, 7, 9,
];

const SOLUTION: [u8; 81] = [
    5, 3, 4, 6, 7, 8, 9, 1, 2,
    6, 7, 2, 1, 9, 5, 3, 4, 8,
    1, 9, 8, 3, 4, 2, 5, 6, 7,
    8, 5, 9, 7, 6, 1, 4, 2, 3,
    4, 2, 6, 8, 5, 3, 7, 9, 1,
    7, 1, 3, 9, 2, 4, 8, 5, 6,
    9, 6, 1, 5, 3, 7, 2, 8, 4,
    2, 8, 7, 4, 1, 9, 6, 3, 5,
    3, 4, 5, 2, 8, 6, 1, 7, 9,
];

const FIRST_GRID: [u8; 81] = [
    1, 2, 3, 4, 5, 6, 7, 8, 9,
    4, 5, 6, 7, 8, 9, 1, 2, 3,
    7, 8, 9, 1, 2, 3, 4, 5, 6,
    2, 1, 4, 3, 6, 5, 8, 9, 7,
    3, 6, 5, 8, 9, 7, 2, 1, 4,
    8, 9, 7, 2, 1, 4, 3, 6, 5,
    5, 3, 1, 6, 4, 2, 9, 7, 8,
    6, 4, 2, 9, 7, 8, 5, 3, 1,
    9, 7, 8, 5, 3, 1, 6, 4, 2,
];

#[test]
fn test_solve() {
    let inp = [0, 0, 0, 0, 0, 0, 0, 0, 0, 0, 0, 0, 0, 0, 0, 0, 0, 0, 0, 0, 0, 0, 0, 0, 0, 0, 0, 0, 0, 0, 0, 0, 0, 0, 0, 0, 0, 0, 0, 0, 0, 0, 0, 0, 0, 0, 0, 0, 0, 0, 0, 0, 0, 0, 0, 0, 0, 0, 0, 0, 0, 0, 0, 0, 0, 0, 0, 0, 0, 0, 0, 0, 0, 0, 0, 0, 0, 0, 0, 0, 0];

    let res = solve_sudoku(&inp);
    assert!(res != None);

    let inp = [9, 8, 7, 6, 5, 0, 0, 0, 0, 0, 0, 0, 0, 0, 0, 0, 0, 0, 0, 0, 0, 0, 0, 0, 0, 0, 0, 0, 0, 0, 0, 0, 0, 0, 0, 0, 0, 0, 0, 0, 0, 0, 0, 0, 0, 0, 0, 0, 0, 0, 0, 0, 0, 0, 0, 0, 0, 0, 0, 0, 0, 0, 0, 0, 0, 0, 0, 0, 0, 0, 0, 0, 0, 0, 0, 0, 0, 0, 7, 8, 9];

    let res = solve_sudoku(&inp);
    assert!(res != None);

    let inp = [1, 2, 1, 2, 1, 0, 0, 0, 0, 0, 0, 0, 0, 0, 0, 0, 0, 0, 0, 0, 0, 0, 0, 0, 0, 0, 0, 0, 0, 0, 0, 0, 0, 0, 0, 0, 0, 0, 0, 0, 0, 0, 0, 0, 0, 0, 0, 0, 0, 0, 0, 0, 0, 0, 0, 0, 0, 0, 0, 0, 0, 0, 0, 0, 0, 0, 0, 0, 0, 0, 0, 0, 0, 0, 0, 0, 0, 0, 0, 0, 0];

    let res = solve_sudoku(&inp);
    assert!(res == None);
}

#[test]
fn blank_grid_gives_the_first_grid() {
    assert_eq!(solve_sudoku(&[0u8; 81]), Some(FIRST_GRID.to_vec()));
}

#[test]
fn puzzle_with_one_solution() {
    assert_eq!(solve_sudoku(&PUZZLE), Some(SOLUTION.to_vec()));
}

#[test]
fn solved_grid_is_returned_as_it_is() {
    assert_eq!(solve_sudoku(&SOLUTION), Some(SOLUTION.to_vec()));
}

#[test]
fn solution_keeps_the_givens() {
    let mut inp = [0u8; 81];
    inp[0] = 9;
    inp[1] = 8;
    inp[2] = 7;
    inp[3] = 6;
    inp[4] = 5;
    inp[78] = 7;
    inp[79] = 8;
    inp[80] = 9;
    let out = solve_sudoku(&inp).unwrap();
    for i in 0..81 {
        if inp[i] != 0 {
            assert_eq!(out[i], inp[i]);
        }
    }
}

#[test]
fn solution_passes_the_consistency_test_again() {
    for inp in [[0u8; 81], PUZZLE] {
        let out = solve_sudoku(&inp).unwrap();
        assert_eq!(out.len(), 81);
        assert!(out.iter().all(|d| (1..=9).contains(d)));
        assert!(is_consistent(&out));
    }
}

#[test]
fn solving_twice_gives_the_same_grid() {
    for inp in [[0u8; 81], PUZZLE] {
        assert_eq!(solve_sudoku(&inp), solve_sudoku(&inp));
    }
    let mut bad = [0u8; 81];
    bad[0] = 1;
    bad[1] = 1;
    assert_eq!(solve_sudoku(&bad), solve_sudoku(&bad));
}

#[test]
fn lowest_digits_come_first() {
    let mut inp = [0u8; 81];
    inp[0] = 2;
    let out = solve_sudoku(&inp).unwrap();
    assert_eq!(out[..9].to_vec(), vec![2, 1, 3, 4, 5, 6, 7, 8, 9]);
    assert!(is_consistent(&out));
}

#[test]
fn contradiction_found_by_propagation_gives_none() {
    let mut inp = [0u8; 81];
    for i in 0..7 {
        inp[i] = i as u8 + 1;
    }
    inp[34] = 8;
    inp[61] = 9;
    assert!(is_consistent(&inp));
    assert_eq!(solve_sudoku(&inp), None);
}

#[test]
fn repeated_givens_give_none_where_propagation_settles_the_rest() {
    let mut inp = SOLUTION;
    inp[0] = 0;
    inp[1] = 7;
    assert!(!is_consistent(&inp));
    assert_eq!(solve_sudoku(&inp), None);
}

#[test]
fn full_grid_of_repeated_givens_gives_none() {
    let inp = [1u8; 81];
    assert!(!is_consistent(&inp));
    assert_eq!(solve_sudoku(&inp), None);
}

#[test]
fn consistent_puzzle_without_solution_gives_none() {
    let mut inp = FIRST_GRID;
    inp[0] = 0;
    inp[1] = 1;
    inp[28] = 0;
    assert!(is_consistent(&inp));
    assert_eq!(solve_sudoku(&inp), None);
}

#[test]
fn some_is_returned_exactly_for_solvable_puzzles() {
    let mut open_cell = SOLUTION;
    open_cell[40] = 0;
    assert_eq!(solve_sudoku(&open_cell), Some(SOLUTION.to_vec()));
    let mut clash = SOLUTION;
    clash[40] = 0;
    clash[41] = 5;
    assert_eq!(solve_sudoku(&clash), None);
}

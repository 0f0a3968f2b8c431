use sudoku::{is_valid, search, solve, PruneCell, SearchCell};

fn all() -> Vec<u8> {
    vec![1, 2, 3, 4, 5, 6, 7, 8, 9]
}

fn vacant_grid() -> Vec<SearchCell> {
    (0..81).map(|_| SearchCell::Vacant(all())).collect()
}

fn shown(grid: &[SearchCell]) -> Vec<u8> {
    grid.iter()
        .map(|c| match c {
            SearchCell::Fixed(n) => *n,
            SearchCell::Filled(i, p) => p[*i],
            SearchCell::Vacant(_) => 0,
        })
        .collect()
}

const FIRST_GRID: [u8; 81] = [
    1, 2, 3, 4, 5, 6, 7, 8, 9,
    4, 5, 6, 7, 8, 9, 1, 2, 3,
    7, 8, 9, 1, 2, 3, 4, 5, 6,
    2, 1, 4, 3, 6, 5, 8, 9, 7,
    3, 6, 5, 8, 9, 7, 2, 1, 4,
    8, 9, 7, 2, 1, 4, 3, 6, 5,
    5, 3, 1, 6, 4, 2, 9, 7, 8,
    6, 4, 2, 9, 7, 8, 5, 3, 1,
    9, 7, 8, 5, 3, 1, 6, 4, 2,
];

#[test]
fn vacant_cells_show_nothing() {
    let grid = vacant_grid();
    for idx in [0usize, 40, 80] {
        assert!(is_valid(&grid, idx));
    }
}

#[test]
fn is_valid_sees_a_repeat_in_the_row() {
    let mut grid = vacant_grid();
    grid[0] = SearchCell::Fixed(5);
    grid[8] = SearchCell::Filled(4, all());
    assert!(!is_valid(&grid, 8));
    assert!(!is_valid(&grid, 0));
    assert!(!is_valid(&grid, 4));
    assert!(is_valid(&grid, 9));
    grid[8] = SearchCell::Filled(3, all());
    assert!(is_valid(&grid, 8));
}

#[test]
fn is_valid_sees_a_repeat_in_the_column() {
    let mut grid = vacant_grid();
    grid[4] = SearchCell::Filled(0, vec![2, 6]);
    grid[76] = SearchCell::Filled(1, vec![1, 2]);
    assert!(!is_valid(&grid, 76));
    assert!(!is_valid(&grid, 40));
    assert!(is_valid(&grid, 75));
}

#[test]
fn is_valid_sees_a_repeat_in_the_box() {
    let mut grid = vacant_grid();
    grid[30] = SearchCell::Fixed(3);
    grid[50] = SearchCell::Fixed(3);
    assert!(!is_valid(&grid, 40));
    assert!(!is_valid(&grid, 30));
    assert!(is_valid(&grid, 33));
    assert!(is_valid(&grid, 27));
}

#[test]
fn is_valid_looks_only_at_the_three_blocks() {
    let mut grid = vacant_grid();
    grid[0] = SearchCell::Fixed(1);
    grid[1] = SearchCell::Fixed(1);
    assert!(is_valid(&grid, 80));
    assert!(is_valid(&grid, 40));
    assert!(!is_valid(&grid, 2));
}

#[test]
fn search_returns_the_first_grid() {
    let done = search(vacant_grid()).unwrap();
    assert_eq!(shown(&done), FIRST_GRID.to_vec());
    assert_eq!(done[0], SearchCell::Filled(0, all()));
    assert_eq!(done[80], SearchCell::Filled(1, all()));
}

#[test]
fn search_keeps_settled_cells_and_candidate_lists() {
    let mut grid = vacant_grid();
    grid[0] = SearchCell::Fixed(9);
    grid[1] = SearchCell::Vacant(vec![4, 8]);
    let done = search(grid).unwrap();
    assert_eq!(done[0], SearchCell::Fixed(9));
    assert_eq!(done[1], SearchCell::Filled(0, vec![4, 8]));
    assert_eq!(done[2], SearchCell::Filled(0, all()));
    assert!(done.iter().all(|c| !matches!(c, SearchCell::Vacant(_))));
}

#[test]
fn search_backtracks_to_a_later_candidate() {
    let mut grid: Vec<SearchCell> =
        FIRST_GRID.iter().map(|&d| SearchCell::Fixed(d)).collect();
    grid[0] = SearchCell::Vacant(vec![1, 2]);
    grid[1] = SearchCell::Vacant(vec![1, 2]);
    grid[27] = SearchCell::Vacant(vec![1, 2]);
    grid[28] = SearchCell::Vacant(vec![1, 2]);
    let done = search(grid).unwrap();
    assert_eq!(shown(&done), FIRST_GRID.to_vec());
    assert_eq!(done[0], SearchCell::Filled(0, vec![1, 2]));
    assert_eq!(done[1], SearchCell::Filled(1, vec![1, 2]));
    assert_eq!(done[27], SearchCell::Filled(1, vec![1, 2]));
    assert_eq!(done[28], SearchCell::Filled(0, vec![1, 2]));
}

#[test]
fn search_without_candidates_fails() {
    let mut grid = vacant_grid();
    grid[80] = SearchCell::Vacant(vec![]);
    grid[79] = SearchCell::Vacant(vec![1]);
    for i in 0..79 {
        grid[i] = SearchCell::Fixed(FIRST_GRID[i]);
    }
    assert_eq!(search(grid), None);
}

#[test]
fn search_exhausts_all_candidates() {
    let mut grid: Vec<SearchCell> =
        FIRST_GRID.iter().map(|&d| SearchCell::Fixed(d)).collect();
    grid[0] = SearchCell::Vacant(vec![2, 4, 7]);
    grid[40] = SearchCell::Vacant(vec![9]);
    assert_eq!(search(grid), None);
}

#[test]
fn search_does_not_test_settled_cells_against_each_other() {
    let grid: Vec<SearchCell> = (0..81).map(|_| SearchCell::Fixed(1)).collect();
    let same: Vec<SearchCell> = (0..81).map(|_| SearchCell::Fixed(1)).collect();
    let done = search(grid).unwrap();
    assert_eq!(done, same);
}

#[test]
fn solve_propagates_then_searches() {
    let mut grid: Vec<PruneCell> =
        (0..81).map(|_| PruneCell::Possibilities(all())).collect();
    for i in 0..8 {
        grid[i] = PruneCell::Fixed(i as u8 + 1);
    }
    let done = solve(grid).unwrap();
    assert_eq!(done[0], SearchCell::Fixed(1));
    assert_eq!(done[8], SearchCell::Fixed(9));
    assert_eq!(done[9], SearchCell::Filled(0, vec![4, 5, 6, 7, 8, 9]));
    assert_eq!(shown(&done), FIRST_GRID.to_vec());
}

#[test]
fn solve_reports_an_emptied_cell() {
    let mut grid: Vec<PruneCell> =
        (0..81).map(|_| PruneCell::Possibilities(all())).collect();
    for i in 0..7 {
        grid[i] = PruneCell::Fixed(i as u8 + 1);
    }
    grid[34] = PruneCell::Fixed(8);
    grid[61] = PruneCell::Fixed(9);
    assert_eq!(solve(grid), None);
}

#[test]
fn solve_rejects_settled_digits_that_clash() {
    let grid: Vec<PruneCell> = (0..81).map(|_| PruneCell::Fixed(1)).collect();
    assert_eq!(solve(grid), None);
    let mut grid: Vec<PruneCell> = FIRST_GRID.iter().map(|&d| PruneCell::Fixed(d)).collect();
    grid[0] = PruneCell::Possibilities(all());
    grid[1] = PruneCell::Fixed(1);
    grid[28] = PruneCell::Possibilities(all());
    assert_eq!(solve(grid), None);
}

#[test]
fn solve_returns_a_settled_grid_that_obeys_the_rule() {
    let grid: Vec<PruneCell> = FIRST_GRID.iter().map(|&d| PruneCell::Fixed(d)).collect();
    let done = solve(grid).unwrap();
    assert_eq!(shown(&done), FIRST_GRID.to_vec());
}

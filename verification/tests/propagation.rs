use sudoku::geometry::blocks;
use sudoku::{propagate, prune, rows, PruneCell};

fn open() -> PruneCell {
    PruneCell::Possibilities(vec![1, 2, 3, 4, 5, 6, 7, 8, 9])
}

fn open_grid() -> Vec<PruneCell> {
    (0..81).map(|_| open()).collect()
}

fn row(i: usize) -> Vec<usize> {
    rows().into_iter().nth(i).unwrap()
}

#[test]
fn prune_removes_settled_digits_from_the_block() {
    let mut grid = open_grid();
    grid[0] = PruneCell::Fixed(5);
    let changed = prune(&mut grid, row(0));
    assert!(changed);
    assert_eq!(grid[0], PruneCell::Fixed(5));
    for i in 1..9 {
        assert_eq!(grid[i], PruneCell::Possibilities(vec![1, 2, 3, 4, 6, 7, 8, 9]));
    }
    for i in 9..81 {
        assert_eq!(grid[i], open());
    }
    let again = prune(&mut grid, row(0));
    assert!(!again);
}

#[test]
fn prune_settles_a_naked_single() {
    let mut grid = open_grid();
    grid[4] = PruneCell::Possibilities(vec![3]);
    let changed = prune(&mut grid, row(0));
    assert!(changed);
    assert_eq!(grid[4], PruneCell::Fixed(3));
    assert_eq!(grid[0], PruneCell::Possibilities(vec![1, 2, 4, 5, 6, 7, 8, 9]));
}

#[test]
fn prune_settles_a_hidden_single_and_reports_it() {
    let mut grid = open_grid();
    for i in 1..9 {
        grid[i] = PruneCell::Possibilities(vec![2, 3, 4, 5, 6, 7, 8, 9]);
    }
    grid[0] = PruneCell::Possibilities(vec![1, 2]);
    let changed = prune(&mut grid, row(0));
    assert!(changed);
    assert_eq!(grid[0], PruneCell::Fixed(1));
    for i in 1..9 {
        assert_eq!(grid[i], PruneCell::Possibilities(vec![2, 3, 4, 5, 6, 7, 8, 9]));
    }
    let again = prune(&mut grid, row(0));
    assert!(!again);
    assert_eq!(grid[0], PruneCell::Fixed(1));
}

#[test]
fn prune_settles_the_last_open_cell_of_a_row() {
    let mut grid = open_grid();
    for i in 0..8 {
        grid[i] = PruneCell::Fixed(i as u8 + 1);
    }
    let changed = prune(&mut grid, row(0));
    assert!(changed);
    assert_eq!(grid[8], PruneCell::Fixed(9));
}

#[test]
fn prune_reports_exactly_when_a_cell_differs() {
    let make = || {
        let mut g = open_grid();
        g[0] = PruneCell::Fixed(4);
        g[1] = PruneCell::Possibilities(vec![5]);
        g[2] = PruneCell::Possibilities(vec![5, 6]);
        g
    };
    let mut grid = make();
    let mut rounds = 0;
    loop {
        let before: Vec<PruneCell> = grid
            .iter()
            .map(|c| match c {
                PruneCell::Fixed(d) => PruneCell::Fixed(*d),
                PruneCell::Possibilities(p) => PruneCell::Possibilities(p.to_vec()),
            })
            .collect();
        let changed = prune(&mut grid, row(0));
        assert_eq!(changed, before != grid);
        rounds += 1;
        if !changed {
            break;
        }
    }
    assert!(rounds >= 2);
    assert_eq!(grid[1], PruneCell::Fixed(5));
    assert_eq!(grid[2], PruneCell::Fixed(6));
}

#[test]
fn hidden_single_takes_the_first_match() {
    let mut grid = open_grid();
    for i in 1..9 {
        grid[i] = PruneCell::Possibilities(vec![3, 4, 5, 6, 7, 8, 9]);
    }
    grid[0] = PruneCell::Possibilities(vec![1, 2, 3]);
    prune(&mut grid, row(0));
    assert_eq!(grid[0], PruneCell::Fixed(1));
}

#[test]
fn prune_settles_a_single_even_where_its_digit_is_settled() {
    let mut grid = open_grid();
    grid[0] = PruneCell::Fixed(7);
    grid[1] = PruneCell::Possibilities(vec![7]);
    grid[2] = PruneCell::Possibilities(vec![7, 8]);
    let changed = prune(&mut grid, row(0));
    assert!(changed);
    assert_eq!(grid[1], PruneCell::Fixed(7));
    assert_eq!(grid[2], PruneCell::Possibilities(vec![8]));
}

#[test]
fn prune_leaves_other_blocks_alone() {
    let mut grid = open_grid();
    grid[40] = PruneCell::Fixed(1);
    let changed = prune(&mut grid, row(0));
    assert!(!changed);
    assert_eq!(grid, {
        let mut g = open_grid();
        g[40] = PruneCell::Fixed(1);
        g
    });
}

#[test]
fn propagate_open_grid_is_unchanged() {
    let mut grid = open_grid();
    propagate(&mut grid);
    assert_eq!(grid, open_grid());
}

#[test]
fn propagate_fills_the_last_cell_of_a_row() {
    let mut grid = open_grid();
    for i in 0..8 {
        grid[i] = PruneCell::Fixed(i as u8 + 1);
    }
    propagate(&mut grid);
    assert_eq!(grid[8], PruneCell::Fixed(9));
    assert_eq!(grid[17], PruneCell::Possibilities(vec![1, 2, 3, 4, 5, 6]));
    assert_eq!(grid[9], PruneCell::Possibilities(vec![4, 5, 6, 7, 8, 9]));
    assert_eq!(grid[72], PruneCell::Possibilities(vec![2, 3, 4, 5, 6, 7, 8, 9]));
}

#[test]
fn propagate_finds_a_contradiction() {
    let mut grid = open_grid();
    for i in 0..7 {
        grid[i] = PruneCell::Fixed(i as u8 + 1);
    }
    grid[34] = PruneCell::Fixed(8);
    grid[61] = PruneCell::Fixed(9);
    propagate(&mut grid);
    assert_eq!(grid[7], PruneCell::Possibilities(vec![]));
}

#[test]
fn propagate_only_narrows() {
    let mut grid = open_grid();
    grid[0] = PruneCell::Fixed(1);
    grid[40] = PruneCell::Fixed(2);
    grid[80] = PruneCell::Fixed(3);
    propagate(&mut grid);
    assert_eq!(grid[0], PruneCell::Fixed(1));
    assert_eq!(grid[40], PruneCell::Fixed(2));
    assert_eq!(grid[80], PruneCell::Fixed(3));
    for cell in &grid {
        if let PruneCell::Possibilities(p) = cell {
            assert!(p.windows(2).all(|w| w[0] < w[1]));
            assert!(p.iter().all(|d| (1..=9).contains(d)));
        }
    }
}

#[test]
fn propagate_ends_at_a_fixed_point() {
    let mut grid = open_grid();
    for i in 0..8 {
        grid[i] = PruneCell::Fixed(i as u8 + 1);
    }
    grid[40] = PruneCell::Fixed(9);
    propagate(&mut grid);
    for block in blocks() {
        assert!(!prune(&mut grid, block));
    }
}

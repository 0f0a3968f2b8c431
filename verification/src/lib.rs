//! A 9×9 Sudoku solver: grid geometry, consistency validation,
//! candidate propagation and a deterministic backtracking search.

pub mod cells;
pub mod geometry;
pub mod lists;
pub mod progress;
pub mod propagate;
pub mod prune;
pub mod prune_laws;
pub mod rules;
pub mod search;
pub mod search_model;
pub mod solver;
pub mod solver_laws;
pub mod valid;

pub use cells::{PruneCell, SearchCell};
pub use geometry::{boxes, cols, rows};
pub use lists::{difference, is_unique};
pub use propagate::propagate;
pub use prune::prune;
pub use rules::is_consistent;
pub use search::search;
pub use solver::{solve, solve_sudoku};
pub use valid::is_valid;

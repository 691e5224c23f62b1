//! Standard 9×9 Sudoku: a board with its row, column and box views and the
//! legality predicates over them, and a solver that completes a board by
//! depth-first backtracking over its blank cells in row-major order.

pub mod board;
pub mod error;
mod search;
pub mod solver;
pub mod values;

pub use board::SudokuBoard;
pub use error::SudokuError;
pub use solver::SudokuSolver;


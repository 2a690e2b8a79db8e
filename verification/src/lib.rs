//! A verified solver for standard 9x9 Sudoku puzzles.
//!
//! The board lives in [`sudoku_grid::SudokuPuzzle`]: 81 cells in row-major
//! order together with three redundant views (rows, columns, 3x3 blocks)
//! that are kept in sync on every mutation, and a move stack that supports
//! undoing fills. The solver in [`sudoku_solver`] drives constraint
//! propagation to a fixed point and then backtracks over the remaining
//! blank cells.

pub mod indexing;
pub mod sudoku_grid;
pub mod sudoku_solver;

pub use sudoku_grid::SudokuPuzzle;
pub use sudoku_solver::solve;

//! A 9x9 Sudoku solver built on constraint propagation and depth-limited
//! backtracking search, with parallel exploration of speculative branches.

pub mod bitset;
pub mod digit;
pub mod grid;
pub mod parse;
pub mod solver;

pub use bitset::PossibleValues;
pub use digit::Digit;
pub use grid::Grid;
pub use solver::{Broken, CannotSolve, Sudoku, SudokuPossibilities, SudokuSolution};

//! A constraint-propagation solver for 9x9 Sudoku puzzles.
//!
//! Each cell's remaining candidate digits are a 9-bit mask; deduction rules
//! over rows, columns and blocks clear candidates until the board is solved
//! or no further progress is possible.

pub mod board;
pub mod group;
pub mod mask;
pub mod rules;
pub mod solver;
pub mod stability;

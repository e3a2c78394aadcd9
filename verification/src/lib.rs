//! A generator and solver for 9×9 Sudoku puzzles, verified with Verus.
//!
//! The mathematical model of a grid lives in [`grid`]; [`board`] holds the
//! executable [`Board`] type whose contracts are stated over that model.

pub mod grid;
pub mod facts;
pub mod board;
pub mod count;
pub mod random;
pub mod fill;
pub mod generate;
pub mod render;
pub mod laws;

pub use board::Board;

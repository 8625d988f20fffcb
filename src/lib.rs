//! Solving, checking and generating 9×9 sudoku puzzles.

pub mod candidates;
pub mod topology;
pub mod grid;
pub mod cover;
pub mod solver;
pub mod generator;
pub mod fast;

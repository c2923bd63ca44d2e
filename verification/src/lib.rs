//! A verified Sudoku solver.
//!
//! The board, its constraint checker and the backtracking search are proved
//! against a mathematical model of the 9x9 grid: a solver reports success
//! exactly when the puzzle has a solution, leaves the given clues untouched
//! and restores the board when the puzzle has none.

pub mod sudoku;

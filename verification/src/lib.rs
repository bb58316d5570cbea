//! A verified 9x9 Sudoku engine: a grid model with its row, column and box
//! constraints, a randomized backtracking solver whose reported count is
//! proved to be the number of completions capped at the caller's limit, and
//! a puzzle generator that strips cells from a random solved grid while
//! provably keeping the solution unique.

pub mod codec;
pub mod generator;
pub mod grid;
pub mod rng;
pub mod solver;

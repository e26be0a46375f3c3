//! Generates and solves 9x9 Sudoku puzzles.
//!
//! The crate builds a random full grid with an exact backtracking search,
//! then erases cells one by one, keeping an erasure only while a
//! restricted two-rule propagation solver can still recover every erased
//! digit. The grid, the candidate tracker, both solvers and the generator
//! carry verified contracts: elimination is stated bit for bit, a
//! successful search provably yields a complete conflict-free grid and
//! provably succeeds whenever a completion exists, and every generated
//! puzzle provably extends to a fully solved valid grid.

pub mod board;
pub mod candidates;
pub mod generate;
pub mod human;
pub mod ordering;
pub mod solver;

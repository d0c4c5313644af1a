//! Simulated annealing over 9×9 Sudoku grids, with its contracts proved.
//!
//! - [`sa_solver`]: what a problem offers to the engine, and the search
//!   state that the engine advances one candidate at a time.
//! - [`sudoku`]: the grid, its constraint groups, and the grid as a problem
//!   for the engine.
//! - [`groups`]: the duplicates of one row, column or block.
//! - [`neighbor`]: the moves from one grid to the next.
//! - [`initial`]: the first grid for a puzzle description.
//! - [`render`]: the grid as text.
//! - [`random`]: the draws, taken from the `rand` crate on trust.
//! - [`seq_facts`]: facts about sequences that the proofs share.

pub mod groups;
pub mod initial;
pub mod neighbor;
pub mod random;
pub mod render;
pub mod sa_solver;
pub mod seq_facts;
pub mod sudoku;

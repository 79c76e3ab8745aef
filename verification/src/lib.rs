//! Constraint propagation for grid puzzles of the Sudoku family.
//!
//! A puzzle of degree `d` is a grid of `d * d` rows and columns whose cells
//! hold one of `d * d` symbols. Rows, columns and boxes are groups of cells
//! that must hold every symbol once. The library keeps, for every cell, the
//! symbols that are still possible, and narrows them group by group until
//! nothing more follows or a contradiction shows.

pub mod bitset;
pub mod block;
pub mod cell;
pub mod coords;
pub mod fixpoint;
pub mod grid;
pub mod laws;
pub mod model;
pub mod proofs;
pub mod puzzle;
pub mod solutions;
pub mod sudoku;

pub use bitset::bits;
pub use block::{Block, Contradiction};
pub use cell::Cell;
pub use coords::Coords;
pub use sudoku::{degree_fits, degree_of, AssignError, FixedPoint, Sudoku};

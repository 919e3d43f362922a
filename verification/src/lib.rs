//! Generalized Sudoku grids: generation of a solved grid by backtracking,
//! and removal of digits while the puzzle stays solvable by forced moves alone.
//!
//! The grid has `quadrant_side * quadrant_side` cells on each edge and is made of
//! square quadrants of edge `quadrant_side`. Every executable function carries a
//! contract over the mathematical model of the grid, a `Seq<u8>` in row-major
//! order in which `0` stands for an empty cell.

pub mod arith;
pub mod deduction;
pub mod geometry;
mod members;
pub mod order;
pub mod pattern;
pub mod puzzle;
mod random;
pub mod rules;
pub mod search;
pub mod solution;
pub mod table;

pub use table::Table;

//! Perfect mazes on a rectangular grid, grown from a random frontier and then
//! lit by a sparse set of light sources whose coverage never overlaps.

pub mod adjacency;
pub mod boundary;
pub mod carve;
pub mod cell;
pub mod generate;
pub mod grid;
pub mod illuminate;
pub mod growth;
pub mod lattice;
pub mod lighting;
pub mod render;
mod random;
pub mod seqs;

pub use crate::cell::{CellPos, CellState};
pub use crate::grid::{GridError, Maze};

//! A Game of Life engine on a square board with four-neighbour adjacency.
//!
//! The board never wraps around: a coordinate outside `[0, n)` is an error,
//! and a neighbour that would fall outside the board is not counted.
pub mod grid;
pub mod engine;
pub mod seed;
pub mod laws;
pub mod clock;

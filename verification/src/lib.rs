//! Step-by-step maze generation and solving over a rectangular grid.
//!
//! Every algorithm is a small state machine: a caller advances it one tick at
//! a time, and each tick is specified over a mathematical view of the maze.
//! Five generators take down walls until the maze is perfect, and five
//! solvers find the way from its start to its end; the laws that hold of
//! them are proved beside them.

pub mod batch;
pub mod config;
pub mod error;
pub mod generator;
pub mod graph;
pub mod maze;
pub mod parse;
pub mod partition;
pub mod passages;
pub mod random;
pub mod session;
pub mod sets;
pub mod solver;
pub mod text;

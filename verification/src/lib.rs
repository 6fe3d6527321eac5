//! Conway's Game of Life on an unbounded integer grid: a sparse board, the
//! generation step, and a decoder for run-length-encoded patterns.

pub mod automaton;
pub mod board;
pub mod loader;
pub mod point;
pub mod point_set;
pub mod rules;

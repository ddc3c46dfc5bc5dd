//! Backtracking exercises: N-queens with incremental attack counts, a
//! knight's tour, factorials and a Fibonacci table.
pub mod grid;
pub mod board;
pub mod search;
pub mod legality;
pub mod enumeration;
pub mod construction;
pub mod factorial;
pub mod fibonacci;
pub mod knights_tour;

//! Generation and solving of N×N sliding-tile puzzles laid out in a spiral.
pub mod board;
pub mod generator;
pub mod goal;
pub mod parity;
pub mod heuristic;
pub mod puzzle;
pub mod search;

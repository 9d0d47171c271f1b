//! Least-cost path finding over 2D tile grids.
//!
//! The crate provides a weighted best-first search engine over an implicit
//! 8-connected grid graph (with a Manhattan-distance informed variant and a
//! plain uniform-cost variant), breadth-first reachability floods, and a
//! seeded room-and-corridor map generator that produces the grids the
//! searches run on.

pub mod astar;
pub mod breadth_first;
pub mod breadth_first_alt;
pub mod dijkstra;
pub mod grid;
pub mod rng;
pub mod search;

//! Shortest paths in graphs with non-negative edge weights, with a few
//! helpers for timing and for the width of text on a console.

pub mod benchmarking;
pub mod dijkstra;
pub mod formatting;
pub mod shorthands;

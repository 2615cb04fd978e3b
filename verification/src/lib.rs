//! A directed graph held in memory: nodes keyed by an unsigned identifier, each with
//! an optional text payload, joined by directed edges that carry an optional text
//! payload too, together with the line format in which a graph is saved and loaded.

pub mod errors;
pub mod text;
pub mod dir_graph;
pub mod dft;

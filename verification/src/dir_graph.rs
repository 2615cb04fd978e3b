//! The graph itself: its edges, its nodes and the container that owns both.

pub mod edge;
pub mod node;
pub mod graph;
pub mod reach;
pub mod traverse;
pub mod laws;

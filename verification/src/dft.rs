//! The saved form of a graph: one line for each node, a line that holds `#` alone,
//! and one line for each edge.

pub mod serializer;
pub mod deserializer;
pub mod round_trip;

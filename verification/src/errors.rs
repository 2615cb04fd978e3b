//! The ways in which an operation on a graph can fail.

use vstd::prelude::*;
use vstd::string::*;

verus! {

/// Why an operation on a graph, or on its saved form, was refused.
#[derive(Debug)]
pub enum GraphError {
    /// A node with the given identifier is already in the graph.
    OccupiedError(),
    /// A node that the operation refers to is not in the graph.
    NodeNotExist(),
    /// The ordered pair of nodes is already joined by an edge.
    EdgeExist(),
    /// The ordered pair of nodes is not joined by an edge.
    EdgeNotExist(),
    /// The identifier under which a node is stored differs from the node's own.
    NotEqualIndexes(),
    /// Reading or writing the saved form failed; the text says how.
    DftError(String),
    /// A line of the saved form is not a node or an edge.
    ParseStrError(),
}

/// What `message` gives for each error but the one that carries a text of its own.
pub open spec fn fixed_message(e: GraphError) -> Seq<char> {
    match e {
        GraphError::OccupiedError() => "Node with the current index already exists"@,
        GraphError::NodeNotExist() => "Node with the current index does not exist"@,
        GraphError::EdgeExist() => "Same edge already exists"@,
        GraphError::EdgeNotExist() => "Edge between such nodes does not exist"@,
        GraphError::NotEqualIndexes() => "Not equal indexes"@,
        GraphError::DftError(_) => "Serialization error: "@,
        GraphError::ParseStrError() => "Error while parsing from str"@,
    }
}

/// The sentence that describes an error.
pub open spec fn message_text(e: GraphError) -> Seq<char> {
    match e {
        GraphError::DftError(cause) => fixed_message(e) + cause@,
        _ => fixed_message(e),
    }
}

impl GraphError {
    /// The sentence that describes this error, as a reader would want to see it.
    pub fn message(&self) -> (out: String)
        ensures
            out@ == message_text(*self),
    {
        match self {
            GraphError::OccupiedError() => String::from_str(
                "Node with the current index already exists",
            ),
            GraphError::NodeNotExist() => String::from_str(
                "Node with the current index does not exist",
            ),
            GraphError::EdgeExist() => String::from_str("Same edge already exists"),
            GraphError::EdgeNotExist() => String::from_str(
                "Edge between such nodes does not exist",
            ),
            GraphError::NotEqualIndexes() => String::from_str("Not equal indexes"),
            GraphError::DftError(cause) => {
                let mut out = String::from_str("Serialization error: ");
                out.append(cause.as_str());
                out
            },
            GraphError::ParseStrError() => String::from_str("Error while parsing from str"),
        }
    }
}

} // verus!

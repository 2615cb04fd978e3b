//! A directed edge: the pair of nodes that it joins, and an optional payload.

use vstd::prelude::*;
use vstd::string::*;
use vstd::std_specs::cmp::PartialEqSpecImpl;
use crate::errors::GraphError;
use crate::text::{
    id_text, is_digit, lemma_id_round_trip, lemma_id_text, lemma_split_joined, parse_id,
    parse_id_text, payload_text, payload_view, push_blank, push_payload, read_back, render_id,
    split_field, split_field_text, writable,
};

verus! {

/// What an edge is: the node it leaves, the node it enters, and its payload.
pub struct EdgeModel {
    pub source: u64,
    pub target: u64,
    pub data: Option<Seq<char>>,
}

/// A directed edge from the node `node_out` to the node `node_in`.
#[derive(Debug)]
pub struct Edge {
    data: Option<String>,
    node_out: u64,
    node_in: u64,
}

impl View for Edge {
    type V = EdgeModel;

    closed spec fn view(&self) -> EdgeModel {
        EdgeModel { source: self.node_out, target: self.node_in, data: payload_view(self.data) }
    }
}

/// The line that stands for an edge: source, target and payload, one blank between.
pub open spec fn edge_line(e: EdgeModel) -> Seq<char> {
    id_text(e.source as int) + seq![' '] + id_text(e.target as int) + seq![' '] + payload_text(
        e.data,
    )
}

/// The edge that a line stands for: two identifiers and a payload that is not empty,
/// parted by the first two runs of white space. `None` for any other line.
pub open spec fn parse_edge_line(s: Seq<char>) -> Option<EdgeModel> {
    match split_field_text(s) {
        Some((first, rest)) => match split_field_text(rest) {
            Some((second, payload)) => match (parse_id_text(first), parse_id_text(second)) {
                (Some(source), Some(target)) => if payload.len() > 0 {
                    Some(EdgeModel { source, target, data: Some(payload) })
                } else {
                    None
                },
                _ => None,
            },
            None => None,
        },
        None => None,
    }
}

/// What an edge shows of itself when it is printed: its payload, or the word `None`.
pub open spec fn edge_label(e: EdgeModel) -> Seq<char> {
    payload_text(e.data)
}

/// Reading the line of an edge gives the edge back, with the text that stands for its
/// payload as its payload, where that text is not empty and free of white space. Such
/// a line begins with a digit.
pub proof fn lemma_edge_line_round_trip(e: EdgeModel)
    requires
        writable(e.data),
    ensures
        parse_edge_line(edge_line(e)) == Some(EdgeModel { data: read_back(e.data), ..e }),
        is_digit(edge_line(e)[0]),
{
    let a = id_text(e.source as int);
    let b = id_text(e.target as int);
    let p = payload_text(e.data);
    let rest = b + seq![' '] + p;
    lemma_id_text(e.source as int);
    lemma_id_text(e.target as int);
    lemma_id_round_trip(e.source);
    lemma_id_round_trip(e.target);
    assert(edge_line(e) =~= a + seq![' '] + rest);
    assert(rest[0] == b[0]);
    lemma_split_joined(a, rest);
    lemma_split_joined(b, p);
    assert(edge_line(e)[0] == a[0]);
}

impl Edge {
    /// An edge from `node_out` to `node_in` that carries `data`.
    pub fn new(data: String, node_out: u64, node_in: u64) -> (out: Edge)
        ensures
            out@ == (EdgeModel { source: node_out, target: node_in, data: Some(data@) }),
    {
        Edge { data: Some(data), node_out, node_in }
    }

    /// The payload of the edge.
    pub fn get_data(&self) -> (out: &Option<String>)
        ensures
            payload_view(*out) == self@.data,
    {
        &self.data
    }

    /// The node that the edge leaves.
    pub fn get_node_out(&self) -> (out: &u64)
        ensures
            *out == self@.source,
    {
        &self.node_out
    }

    /// The node that the edge enters.
    pub fn get_node_in(&self) -> (out: &u64)
        ensures
            *out == self@.target,
    {
        &self.node_in
    }

    /// The line that stands for the edge in the saved form of a graph.
    pub fn to_dft(&self) -> (out: String)
        ensures
            out@ == edge_line(self@),
    {
        let mut out = render_id(self.node_out);
        push_blank(&mut out);
        let target = render_id(self.node_in);
        out.append(target.as_str());
        push_blank(&mut out);
        push_payload(&mut out, &self.data);
        out
    }

    /// Reads an edge from its line in the saved form of a graph.
    pub fn from_str(s: &str) -> (out: Result<Edge, GraphError>)
        ensures
            match parse_edge_line(s@) {
                Some(e) => out is Ok && out.unwrap()@ == e,
                None => out matches Err(GraphError::ParseStrError()),
            },
    {
        let (first, rest) = match split_field(s) {
            Some(parts) => parts,
            None => { return Err(GraphError::ParseStrError()); },
        };
        let (second, payload) = match split_field(rest) {
            Some(parts) => parts,
            None => { return Err(GraphError::ParseStrError()); },
        };
        let node_out = match parse_id(first) {
            Some(id) => id,
            None => { return Err(GraphError::ParseStrError()); },
        };
        let node_in = match parse_id(second) {
            Some(id) => id,
            None => { return Err(GraphError::ParseStrError()); },
        };
        if payload.unicode_len() == 0 {
            return Err(GraphError::ParseStrError());
        }
        Ok(Edge { data: Some(String::from_str(payload)), node_out, node_in })
    }

    /// The text that the edge shows when it is printed.
    pub fn to_string(&self) -> (out: String)
        ensures
            out@ == edge_label(self@),
    {
        let mut out = String::new();
        push_payload(&mut out, &self.data);
        assert(out@ =~= edge_label(self@));
        out
    }
}

impl PartialEq for Edge {
    /// Two edges are equal where they join the same nodes in the same direction,
    /// whatever they carry.
    fn eq(&self, other: &Edge) -> (out: bool) {
        self.node_out == other.node_out && self.node_in == other.node_in
    }
}

impl PartialEqSpecImpl for Edge {
    open spec fn obeys_eq_spec() -> bool {
        true
    }

    open spec fn eq_spec(&self, other: &Edge) -> bool {
        self@.source == other@.source && self@.target == other@.target
    }
}

impl Eq for Edge {

}

} // verus!

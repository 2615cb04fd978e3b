//! A node: its identifier, an optional payload, the edges that leave it, which it
//! owns, and the identifiers of the nodes from which an edge enters it.

use vstd::prelude::*;
use vstd::string::*;
use vstd::std_specs::iter::IteratorSpec;
use std::collections::HashMap;
use std::collections::HashSet;
use crate::errors::GraphError;
use crate::dir_graph::edge::{Edge, EdgeModel};
use crate::text::{
    id_text, is_digit, lemma_id_round_trip, lemma_id_text, lemma_split_joined, line_views,
    parse_id, parse_id_text, payload_text, payload_view, push_blank, push_payload, read_back,
    render_id, split_field, split_field_text, writable,
};

verus! {

broadcast use vstd::std_specs::hash::group_hash_axioms;

/// What a node is: its identifier, its payload, the edges that leave it, keyed by the
/// node each enters, and the nodes from which an edge enters it.
pub struct NodeModel {
    pub index: u64,
    pub data: Option<Seq<char>>,
    pub outbound: Map<u64, EdgeModel>,
    pub inbound: Set<u64>,
}

impl NodeModel {
    /// Whether the node has no edge in either direction.
    pub open spec fn detached(self) -> bool {
        self.outbound == Map::<u64, EdgeModel>::empty() && self.inbound == Set::<u64>::empty()
    }

    /// The node with identifier and payload and without edges.
    pub open spec fn fresh(index: u64, data: Option<Seq<char>>) -> NodeModel {
        NodeModel { index, data, outbound: Map::empty(), inbound: Set::empty() }
    }
}

/// The line that stands for a node: identifier and payload, one blank between.
pub open spec fn node_line(index: u64, data: Option<Seq<char>>) -> Seq<char> {
    id_text(index as int) + seq![' '] + payload_text(data)
}

/// The node that a line stands for: an identifier and a payload that is not empty,
/// parted by the first run of white space. `None` for any other line.
pub open spec fn parse_node_line(s: Seq<char>) -> Option<NodeModel> {
    match split_field_text(s) {
        Some((first, payload)) => match parse_id_text(first) {
            Some(index) => if payload.len() > 0 {
                Some(NodeModel::fresh(index, Some(payload)))
            } else {
                None
            },
            None => None,
        },
        None => None,
    }
}

/// What a node shows of itself when it is printed.
pub open spec fn node_label(index: u64, data: Option<Seq<char>>) -> Seq<char> {
    "index: "@ + id_text(index as int) + ", data: "@ + payload_text(data)
}

/// The identifiers of a sequence, each with a blank before it and a comma after it.
pub open spec fn id_list(ids: Seq<u64>) -> Seq<char>
    decreases ids.len(),
{
    if ids.len() == 0 {
        Seq::empty()
    } else {
        id_list(ids.drop_last()) + seq![' '] + id_text(ids.last() as int) + seq![',']
    }
}

/// The three lines that describe a node to a reader: the node itself, the nodes from
/// which an edge enters it, in the order `sources`, and the nodes that an edge from
/// it enters, in the order `targets`.
pub open spec fn report_lines(n: NodeModel, sources: Seq<u64>, targets: Seq<u64>) -> Seq<
    Seq<char>,
> {
    seq![
        "Node: "@ + node_label(n.index, n.data),
        "Adjacent inbound:"@ + id_list(sources),
        "Adjacent outbound:"@ + id_list(targets),
    ]
}

/// Whether three lines describe a node: its neighbours stand in them each once, in
/// some order.
pub open spec fn describes(n: NodeModel, lines: Seq<Seq<char>>) -> bool {
    exists|sources: Seq<u64>, targets: Seq<u64>|
        sources.no_duplicates() && sources.to_set() == n.inbound && targets.no_duplicates()
            && targets.to_set() == n.outbound.dom() && lines == #[trigger] report_lines(
            n,
            sources,
            targets,
        )
}

/// Reading the line of a node gives the node back, without edges and with the text
/// that stands for its payload as its payload, where that text is not empty and free
/// of white space. Such a line begins with a digit.
pub proof fn lemma_node_line_round_trip(index: u64, data: Option<Seq<char>>)
    requires
        writable(data),
    ensures
        parse_node_line(node_line(index, data)) == Some(NodeModel::fresh(index, read_back(data))),
        is_digit(node_line(index, data)[0]),
{
    let a = id_text(index as int);
    let p = payload_text(data);
    lemma_id_text(index as int);
    lemma_id_round_trip(index);
    lemma_split_joined(a, p);
    assert(node_line(index, data)[0] == a[0]);
}

/// Gathers an identifier, a payload and, where wanted, edges, and makes a node of them.
pub struct NodeBuilder {
    index: u64,
    data: Option<String>,
    outbound_edges: HashMap<u64, Edge>,
    inbound_edges: HashSet<u64>,
}

/// A node of a graph.
#[derive(Debug)]
pub struct Node {
    index: u64,
    data: Option<String>,
    outbound_edges: HashMap<u64, Edge>,
    inbound_edges: HashSet<u64>,
}

/// The edges of a map, each as what it is.
pub open spec fn edge_models(edges: Map<u64, Edge>) -> Map<u64, EdgeModel> {
    Map::new(|k: u64| edges.contains_key(k), |k: u64| edges[k]@)
}

impl View for NodeBuilder {
    type V = NodeModel;

    closed spec fn view(&self) -> NodeModel {
        NodeModel {
            index: self.index,
            data: payload_view(self.data),
            outbound: edge_models(self.outbound_edges@),
            inbound: self.inbound_edges@,
        }
    }
}

impl View for Node {
    type V = NodeModel;

    closed spec fn view(&self) -> NodeModel {
        NodeModel {
            index: self.index,
            data: payload_view(self.data),
            outbound: edge_models(self.outbound_edges@),
            inbound: self.inbound_edges@,
        }
    }
}

/// Appends to `out` the identifiers of `ids`, each with a blank before it and a comma
/// after it.
pub fn push_id_list(out: &mut String, ids: &Vec<u64>)
    ensures
        final(out)@ == old(out)@ + id_list(ids@),
{
    let mut i: usize = 0;
    assert(ids@.take(0) =~= Seq::<u64>::empty());
    assert(out@ =~= old(out)@ + id_list(ids@.take(0)));
    while i < ids.len()
        invariant
            i <= ids.len(),
            out@ == old(out)@ + id_list(ids@.take(i as int)),
        decreases ids.len() - i,
    {
        let ghost before = out@;
        push_blank(out);
        let id = render_id(ids[i]);
        out.append(id.as_str());
        proof {
            reveal_strlit(",");
        }
        out.append(",");
        proof {
            assert(","@ =~= seq![',']);
            assert(ids@.take(i + 1).drop_last() =~= ids@.take(i as int));
            assert(ids@.take(i + 1).last() == ids@[i as int]);
            assert(out@ =~= old(out)@ + id_list(ids@.take(i + 1)));
        }
        i += 1;
    }
    assert(ids@.take(ids.len() as int) =~= ids@);
}

impl NodeBuilder {
    /// Begins a node with the given identifier, no payload and no edges.
    pub fn new(index: u64) -> (out: NodeBuilder)
        ensures
            out@ == NodeModel::fresh(index, None),
    {
        let out = NodeBuilder {
            index,
            data: None,
            inbound_edges: HashSet::new(),
            outbound_edges: HashMap::new(),
        };
        assert(out@.outbound =~= Map::empty());
        out
    }

    /// Gives the node a payload.
    pub fn data(self, data: String) -> (out: NodeBuilder)
        ensures
            out@ == (NodeModel { data: Some(data@), ..self@ }),
    {
        let mut out = self;
        out.data = Some(data);
        out
    }

    /// Gives the node the edges that leave it, keyed by the node each enters.
    pub fn outbound_edges(self, outbound_edges: HashMap<u64, Edge>) -> (out: NodeBuilder)
        ensures
            out@ == (NodeModel { outbound: edge_models(outbound_edges@), ..self@ }),
    {
        let mut out = self;
        out.outbound_edges = outbound_edges;
        out
    }

    /// Gives the node the identifiers of the nodes from which an edge enters it.
    pub fn inbound_edges(self, inbound_edges: HashSet<u64>) -> (out: NodeBuilder)
        ensures
            out@ == (NodeModel { inbound: inbound_edges@, ..self@ }),
    {
        let mut out = self;
        out.inbound_edges = inbound_edges;
        out
    }

    /// The node that was gathered.
    pub fn build(self) -> (out: Node)
        ensures
            out@ == self@,
    {
        Node {
            index: self.index,
            data: self.data,
            outbound_edges: self.outbound_edges,
            inbound_edges: self.inbound_edges,
        }
    }
}

impl Node {
    /// The identifier of the node.
    pub fn get_index(&self) -> (out: &u64)
        ensures
            *out == self@.index,
    {
        &self.index
    }

    /// The payload of the node.
    pub fn get_data(&self) -> (out: &Option<String>)
        ensures
            payload_view(*out) == self@.data,
    {
        &self.data
    }

    /// The edges that leave the node, keyed by the node each enters.
    pub fn get_outbound(&self) -> (out: &HashMap<u64, Edge>)
        ensures
            edge_models(out@) == self@.outbound,
    {
        &self.outbound_edges
    }

    /// The identifiers of the nodes from which an edge enters the node.
    pub fn get_inbound(&self) -> (out: &HashSet<u64>)
        ensures
            out@ == self@.inbound,
    {
        &self.inbound_edges
    }

    /// Whether the node has no edge in either direction, as a node has before it is
    /// added to a graph.
    pub fn is_detached(&self) -> (out: bool)
        ensures
            out == self@.detached(),
    {
        let out = self.outbound_edges.is_empty() && self.inbound_edges.is_empty();
        proof {
            if out {
                assert(self@.outbound =~= Map::<u64, EdgeModel>::empty());
                assert(self@.inbound =~= Set::<u64>::empty());
            } else if self@.detached() {
                assert(self.outbound_edges@.dom() =~= self@.outbound.dom());
                assert(self.outbound_edges@.dom() =~= Set::<u64>::empty());
            }
        }
        out
    }

    /// The edge that leaves the node for `target`, if there is one.
    pub fn get_edge(&self, target: &u64) -> (out: Option<&Edge>)
        ensures
            match out {
                Some(e) => self@.outbound.contains_key(*target) && e@ == self@.outbound[*target],
                None => !self@.outbound.contains_key(*target),
            },
    {
        self.outbound_edges.get(target)
    }

    /// Whether an edge leaves the node for `target`.
    pub fn has_outbound(&self, target: &u64) -> (out: bool)
        ensures
            out == self@.outbound.contains_key(*target),
    {
        self.outbound_edges.contains_key(target)
    }

    /// Whether an edge enters the node from `source`.
    pub fn has_inbound(&self, source: &u64) -> (out: bool)
        ensures
            out == self@.inbound.contains(*source),
    {
        self.inbound_edges.contains(source)
    }

    /// The nodes that an edge from this node enters, each once.
    pub fn outbound_keys(&self) -> (out: Vec<u64>)
        ensures
            out@.no_duplicates(),
            out@.to_set() == self@.outbound.dom(),
    {
        let mut out: Vec<u64> = Vec::new();
        let ghost all = self.outbound_edges.keys().remaining();
        for k in it: self.outbound_edges.keys()
            invariant
                it.seq() == all,
                out@ == all.take(it.index()).unref(),
        {
            out.push(*k);
            assert(out@ =~= all.take(it.index() + 1).unref());
        }
        assert(out@ =~= all.unref());
        assert(self@.outbound.dom() =~= self.outbound_edges@.dom());
        out
    }

    /// The nodes from which an edge enters this node, each once.
    pub fn inbound_keys(&self) -> (out: Vec<u64>)
        ensures
            out@.no_duplicates(),
            out@.to_set() == self@.inbound,
    {
        let mut out: Vec<u64> = Vec::new();
        let ghost all = self.inbound_edges.iter().remaining();
        for k in it: self.inbound_edges.iter()
            invariant
                it.seq() == all,
                out@ == all.take(it.index()).unref(),
        {
            out.push(*k);
            assert(out@ =~= all.take(it.index() + 1).unref());
        }
        assert(out@ =~= all.unref());
        out
    }

    /// Records an edge that leaves this node, under the node that it enters.
    pub(crate) fn add_outbound(&mut self, edge: Edge)
        ensures
            final(self)@ == (NodeModel {
                outbound: old(self)@.outbound.insert(edge@.target, edge@),
                ..old(self)@
            }),
    {
        let target = *edge.get_node_in();
        let ghost e = edge@;
        self.outbound_edges.insert(target, edge);
        assert(edge_models(self.outbound_edges@) =~= edge_models(old(self).outbound_edges@).insert(
            target,
            e,
        ));
    }

    /// Forgets the edge that leaves this node for `target`; says whether there was one.
    pub(crate) fn remove_outbound(&mut self, target: &u64) -> (out: bool)
        ensures
            out == old(self)@.outbound.contains_key(*target),
            final(self)@ == (NodeModel {
                outbound: old(self)@.outbound.remove(*target),
                ..old(self)@
            }),
    {
        let gone = self.outbound_edges.remove(target);
        assert(edge_models(self.outbound_edges@) =~= edge_models(old(self).outbound_edges@).remove(
            *target,
        ));
        gone.is_some()
    }

    /// Records that an edge enters this node from `source`.
    pub(crate) fn add_inbound(&mut self, source: u64)
        ensures
            final(self)@ == (NodeModel {
                inbound: old(self)@.inbound.insert(source),
                ..old(self)@
            }),
    {
        self.inbound_edges.insert(source);
    }

    /// Forgets that an edge enters this node from `source`; says whether one did.
    pub(crate) fn remove_inbound(&mut self, source: &u64) -> (out: bool)
        ensures
            out == old(self)@.inbound.contains(*source),
            final(self)@ == (NodeModel {
                inbound: old(self)@.inbound.remove(*source),
                ..old(self)@
            }),
    {
        self.inbound_edges.remove(source)
    }

    /// The line that stands for the node in the saved form of a graph.
    pub fn to_dft(&self) -> (out: String)
        ensures
            out@ == node_line(self@.index, self@.data),
    {
        let mut out = render_id(self.index);
        push_blank(&mut out);
        push_payload(&mut out, &self.data);
        out
    }

    /// Reads a node, without edges, from its line in the saved form of a graph.
    pub fn from_str(s: &str) -> (out: Result<Node, GraphError>)
        ensures
            match parse_node_line(s@) {
                Some(n) => out is Ok && out.unwrap()@ == n,
                None => out matches Err(GraphError::ParseStrError()),
            },
    {
        let (first, payload) = match split_field(s) {
            Some(parts) => parts,
            None => { return Err(GraphError::ParseStrError()); },
        };
        let index = match parse_id(first) {
            Some(id) => id,
            None => { return Err(GraphError::ParseStrError()); },
        };
        if payload.unicode_len() == 0 {
            return Err(GraphError::ParseStrError());
        }
        Ok(NodeBuilder::new(index).data(String::from_str(payload)).build())
    }

    /// The lines that describe the node to a reader.
    pub fn report(&self) -> (out: Vec<String>)
        ensures
            describes(self@, line_views(out@)),
    {
        let sources = self.inbound_keys();
        let targets = self.outbound_keys();
        let mut first = String::from_str("Node: ");
        let label = self.to_string();
        first.append(label.as_str());
        let mut second = String::from_str("Adjacent inbound:");
        push_id_list(&mut second, &sources);
        let mut third = String::from_str("Adjacent outbound:");
        push_id_list(&mut third, &targets);
        let mut out: Vec<String> = Vec::new();
        out.push(first);
        out.push(second);
        out.push(third);
        assert(line_views(out@) =~= report_lines(self@, sources@, targets@));
        out
    }

    /// The text that the node shows when it is printed.
    pub fn to_string(&self) -> (out: String)
        ensures
            out@ == node_label(self@.index, self@.data),
    {
        let mut out = String::from_str("index: ");
        let index = render_id(self.index);
        out.append(index.as_str());
        out.append(", data: ");
        push_payload(&mut out, &self.data);
        out
    }
}

} // verus!

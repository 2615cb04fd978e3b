//! The graph: a map from identifiers to nodes, through which every edge is made and
//! unmade, so that what a node records of an edge that leaves it and what its
//! neighbour records of the same edge, as one that enters, never disagree.

use vstd::prelude::*;
use std::collections::HashMap;
use vstd::std_specs::iter::IteratorSpec;
use crate::errors::GraphError;
use crate::dir_graph::edge::{Edge, EdgeModel};
use crate::dir_graph::node::{Node, NodeModel};

verus! {

broadcast use vstd::std_specs::hash::group_hash_axioms;

/// Whether a graph holds the node `a` and, on it, an edge that leaves for `b`.
pub open spec fn has_edge(g: Map<u64, NodeModel>, a: u64, b: u64) -> bool {
    g.contains_key(a) && g[a].outbound.contains_key(b)
}

/// Whether a graph holds the node `b` and, on it, the record of an edge that enters
/// from `a`.
pub open spec fn has_back(g: Map<u64, NodeModel>, a: u64, b: u64) -> bool {
    g.contains_key(b) && g[b].inbound.contains(a)
}

/// What holds of every graph: it has finitely many nodes; each node is stored under
/// its own identifier; an edge is stored under the node it enters, on the node it
/// leaves; both its ends are in the graph; and a node records an edge as entering it
/// exactly where the node at the other end records that edge as leaving.
pub open spec fn graph_wf(g: Map<u64, NodeModel>) -> bool {
    &&& g.dom().finite()
    &&& forall|k: u64| #[trigger] g.contains_key(k) ==> g[k].index == k
    &&& forall|a: u64, b: u64| #[trigger]
        has_edge(g, a, b) ==> has_back(g, a, b) && g.contains_key(b) && g[a].outbound[b].source
            == a && g[a].outbound[b].target == b
    &&& forall|a: u64, b: u64| #[trigger]
        has_back(g, a, b) ==> has_edge(g, a, b) && g.contains_key(a)
}

/// The node stored under an identifier, if there is one.
pub open spec fn get_node_spec(g: Map<u64, NodeModel>, key: u64) -> Option<NodeModel> {
    if g.contains_key(key) {
        Some(g[key])
    } else {
        None
    }
}

/// Adding a node: refused where the identifier is taken, or is not the node's own;
/// else the graph with the node stored under the identifier.
pub open spec fn add_node_spec(g: Map<u64, NodeModel>, index: u64, node: NodeModel) -> Result<
    Map<u64, NodeModel>,
    GraphError,
> {
    if g.contains_key(index) {
        Err(GraphError::OccupiedError())
    } else if index != node.index {
        Err(GraphError::NotEqualIndexes())
    } else {
        Ok(g.insert(index, node))
    }
}

/// A node without the edges that join it to `a`, in either direction.
pub open spec fn without_neighbour(n: NodeModel, a: u64) -> NodeModel {
    NodeModel { outbound: n.outbound.remove(a), inbound: n.inbound.remove(a), ..n }
}

/// Removing a node: refused where it is not in the graph; else the graph without the
/// node and without any edge that left or entered it.
pub open spec fn remove_node_spec(g: Map<u64, NodeModel>, index: u64) -> Result<
    Map<u64, NodeModel>,
    GraphError,
> {
    if !g.contains_key(index) {
        Err(GraphError::NodeNotExist())
    } else {
        Ok(
            Map::new(
                |k: u64| g.contains_key(k) && k != index,
                |k: u64| without_neighbour(g[k], index),
            ),
        )
    }
}

/// Whether an edge from `source` to `target` can be added: refused where either node
/// is not in the graph, or where the edge is there already.
pub open spec fn edge_fits(g: Map<u64, NodeModel>, source: u64, target: u64) -> Result<
    (),
    GraphError,
> {
    if !g.contains_key(source) || !g.contains_key(target) {
        Err(GraphError::NodeNotExist())
    } else if g[source].outbound.contains_key(target) {
        Err(GraphError::EdgeExist())
    } else {
        Ok(())
    }
}

/// A graph in which the node `a` is changed by `f`.
pub open spec fn update_node(
    g: Map<u64, NodeModel>,
    a: u64,
    f: spec_fn(NodeModel) -> NodeModel,
) -> Map<u64, NodeModel> {
    g.insert(a, f(g[a]))
}

/// The graph with one more edge: recorded on its source as leaving, and then on its
/// target as entering.
pub open spec fn with_edge(g: Map<u64, NodeModel>, e: EdgeModel) -> Map<u64, NodeModel> {
    let g1 = update_node(
        g,
        e.source,
        |n: NodeModel| NodeModel { outbound: n.outbound.insert(e.target, e), ..n },
    );
    update_node(
        g1,
        e.target,
        |n: NodeModel| NodeModel { inbound: n.inbound.insert(e.source), ..n },
    )
}

/// The graph with one edge less: taken from its source, and then from its target.
pub open spec fn without_edge(g: Map<u64, NodeModel>, source: u64, target: u64) -> Map<
    u64,
    NodeModel,
> {
    let g1 = update_node(
        g,
        source,
        |n: NodeModel| NodeModel { outbound: n.outbound.remove(target), ..n },
    );
    update_node(g1, target, |n: NodeModel| NodeModel { inbound: n.inbound.remove(source), ..n })
}

/// Adding an edge: refused as `edge_fits` says; else the graph with the edge.
pub open spec fn add_edge_spec(g: Map<u64, NodeModel>, e: EdgeModel) -> Result<
    Map<u64, NodeModel>,
    GraphError,
> {
    match edge_fits(g, e.source, e.target) {
        Err(why) => Err(why),
        Ok(_) => Ok(with_edge(g, e)),
    }
}

/// Removing an edge: refused where the source is not in the graph, and where the edge
/// is not recorded at both of its ends; else the graph without the edge.
pub open spec fn remove_edge_spec(g: Map<u64, NodeModel>, source: u64, target: u64) -> Result<
    Map<u64, NodeModel>,
    GraphError,
> {
    if !g.contains_key(source) {
        Err(GraphError::NodeNotExist())
    } else if !has_edge(g, source, target) || !has_back(g, source, target) {
        Err(GraphError::EdgeNotExist())
    } else {
        Ok(without_edge(g, source, target))
    }
}

/// Whether a sequence lists the nodes of a graph, each once.
pub open spec fn lists_nodes(g: Map<u64, NodeModel>, s: Seq<NodeModel>) -> bool {
    &&& forall|i: int|
        0 <= i < s.len() ==> g.contains_key((#[trigger] s[i]).index) && g[s[i].index] == s[i]
    &&& forall|i: int, j: int|
        0 <= i < j < s.len() ==> (#[trigger] s[i]).index != (#[trigger] s[j]).index
    &&& forall|k: u64| #[trigger] g.contains_key(k) ==> node_listed(s, k)
}

/// Whether a sequence of nodes holds one with the identifier `k`.
pub open spec fn node_listed(s: Seq<NodeModel>, k: u64) -> bool {
    exists|i: int| 0 <= i < s.len() && (#[trigger] s[i]).index == k
}

/// Whether a sequence of edges holds one from `a` to `b`.
pub open spec fn edge_listed(s: Seq<EdgeModel>, a: u64, b: u64) -> bool {
    exists|i: int| 0 <= i < s.len() && (#[trigger] s[i]).source == a && s[i].target == b
}

/// Whether every edge of a sequence is an edge of the graph, and no two of them join
/// the same nodes in the same direction.
pub open spec fn edges_of(g: Map<u64, NodeModel>, s: Seq<EdgeModel>) -> bool {
    &&& forall|i: int|
        0 <= i < s.len() ==> has_edge(g, (#[trigger] s[i]).source, s[i].target)
            && g[s[i].source].outbound[s[i].target] == s[i]
    &&& forall|i: int, j: int|
        0 <= i < j < s.len() ==> !((#[trigger] s[i]).source == (#[trigger] s[j]).source
            && s[i].target == s[j].target)
}

/// Whether a sequence lists the edges of a graph, each once.
pub open spec fn lists_edges(g: Map<u64, NodeModel>, s: Seq<EdgeModel>) -> bool {
    &&& edges_of(g, s)
    &&& forall|a: u64, b: u64| #[trigger] has_edge(g, a, b) ==> edge_listed(s, a, b)
}

/// The nodes of a sequence, each as what it is.
pub open spec fn node_views(s: Seq<&Node>) -> Seq<NodeModel> {
    Seq::new(s.len(), |i: int| s[i]@)
}

/// The edges of a sequence, each as what it is.
pub open spec fn edge_views(s: Seq<&Edge>) -> Seq<EdgeModel> {
    Seq::new(s.len(), |i: int| s[i]@)
}

/// Whether `k` stands among the first `n` of `keys`.
pub open spec fn among(keys: Seq<u64>, n: int, k: u64) -> bool {
    exists|p: int| 0 <= p < n && p < keys.len() && #[trigger] keys[p] == k
}

/// A directed graph.
#[derive(Debug)]
pub struct Graph {
    nodes: HashMap<u64, Node>,
}

impl View for Graph {
    type V = Map<u64, NodeModel>;

    closed spec fn view(&self) -> Map<u64, NodeModel> {
        Map::new(|k: u64| self.nodes@.contains_key(k), |k: u64| self.nodes@[k]@)
    }
}

impl Default for Graph {
    /// The graph without nodes.
    fn default() -> (out: Graph)
        ensures
            out@ == Map::<u64, NodeModel>::empty(),
            out.wf(),
    {
        Graph::new()
    }
}

impl Graph {
    /// Whether the graph is as every graph is: see `graph_wf`.
    pub open spec fn wf(&self) -> bool {
        graph_wf(self@)
    }

    /// The graph without nodes.
    pub fn new() -> (out: Graph)
        ensures
            out@ == Map::<u64, NodeModel>::empty(),
            out.wf(),
    {
        let out = Graph { nodes: HashMap::new() };
        assert(out@ =~= Map::<u64, NodeModel>::empty());
        out
    }

    /// Stores `node` under `index`. The node comes without edges: edges are made by
    /// `add_edge`, between nodes that the graph holds.
    pub fn add_node(&mut self, index: u64, node: Node) -> (out: Result<(), GraphError>)
        requires
            old(self).wf(),
            node@.detached(),
        ensures
            final(self).wf(),
            match add_node_spec(old(self)@, index, node@) {
                Ok(g) => out is Ok && final(self)@ == g,
                Err(why) => out == Err::<(), GraphError>(why) && final(self)@ == old(self)@,
            },
    {
        if self.nodes.contains_key(&index) {
            Err(GraphError::OccupiedError())
        } else if index == *node.get_index() {
            let ghost n = node@;
            self.nodes.insert(index, node);
            assert(self@ =~= old(self)@.insert(index, n));
            proof {
                lemma_with_node_wf(old(self)@, index, n);
            }
            Ok(())
        } else {
            Err(GraphError::NotEqualIndexes())
        }
    }

    /// Removes the node stored under `index`, and with it every edge that leaves or
    /// enters it.
    pub fn remove_node(&mut self, index: &u64) -> (out: Result<(), GraphError>)
        requires
            old(self).wf(),
        ensures
            final(self).wf(),
            match remove_node_spec(old(self)@, *index) {
                Ok(g) => out is Ok && final(self)@ == g,
                Err(why) => out == Err::<(), GraphError>(why) && final(self)@ == old(self)@,
            },
    {
        let a = *index;
        let ghost g = self@;
        let node = match self.nodes.remove(index) {
            Some(node) => node,
            None => {
                assert(self@ =~= g);
                return Err(GraphError::NodeNotExist());
            },
        };
        let outbound_nodes = node.outbound_keys();
        let inbound_nodes = node.inbound_keys();
        assert(self@.dom() =~= g.dom().remove(a));
        let mut i: usize = 0;
        while i < outbound_nodes.len()
            invariant
                i <= outbound_nodes.len(),
                graph_wf(g),
                g.contains_key(a),
                outbound_nodes@.to_set() == g[a].outbound.dom(),
                inbound_nodes@.to_set() == g[a].inbound,
                self@.dom() == g.dom().remove(a),
                forall|k: u64| #[trigger]
                    self@.contains_key(k) ==> self@[k].index == g[k].index && self@[k].data
                        == g[k].data && self@[k].outbound == g[k].outbound && (self@[k].inbound
                        == g[k].inbound || self@[k].inbound == g[k].inbound.remove(a)),
                forall|j: int|
                    0 <= j < i && outbound_nodes@[j] != a ==> (#[trigger] self@[outbound_nodes@[j]]).inbound
                        == g[outbound_nodes@[j]].inbound.remove(a),
            decreases outbound_nodes.len() - i,
        {
            let b = outbound_nodes[i];
            if b != a {
                let ghost before = self@;
                match self.nodes.remove(&b) {
                    Some(mut neighbour) => {
                        assert(before.contains_key(b));
                        neighbour.remove_inbound(&a);
                        self.nodes.insert(b, neighbour);
                        assert(self@ =~= before.insert(
                            b,
                            NodeModel { inbound: before[b].inbound.remove(a), ..before[b] },
                        ));
                        assert(before[b].inbound.remove(a) =~= g[b].inbound.remove(a));
                    },
                    None => {
                        assert(self@ =~= before);
                        assert(outbound_nodes@.to_set().contains(b));
                        assert(has_edge(g, a, b));
                    },
                }
            }
            i += 1;
        }
        let mut i: usize = 0;
        while i < inbound_nodes.len()
            invariant
                i <= inbound_nodes.len(),
                graph_wf(g),
                g.contains_key(a),
                outbound_nodes@.to_set() == g[a].outbound.dom(),
                inbound_nodes@.to_set() == g[a].inbound,
                self@.dom() == g.dom().remove(a),
                forall|k: u64| #[trigger]
                    self@.contains_key(k) ==> self@[k].index == g[k].index && self@[k].data
                        == g[k].data && (self@[k].outbound == g[k].outbound || self@[k].outbound
                        == g[k].outbound.remove(a)) && (self@[k].inbound == g[k].inbound
                        || self@[k].inbound == g[k].inbound.remove(a)),
                forall|j: int|
                    0 <= j < outbound_nodes.len() && outbound_nodes@[j] != a ==> (
                    #[trigger] self@[outbound_nodes@[j]]).inbound
                        == g[outbound_nodes@[j]].inbound.remove(a),
                forall|j: int|
                    0 <= j < i && inbound_nodes@[j] != a ==> (#[trigger] self@[inbound_nodes@[j]]).outbound
                        == g[inbound_nodes@[j]].outbound.remove(a),
            decreases inbound_nodes.len() - i,
        {
            let b = inbound_nodes[i];
            if b != a {
                let ghost before = self@;
                match self.nodes.remove(&b) {
                    Some(mut neighbour) => {
                        assert(before.contains_key(b));
                        neighbour.remove_outbound(&a);
                        self.nodes.insert(b, neighbour);
                        assert(self@ =~= before.insert(
                            b,
                            NodeModel { outbound: before[b].outbound.remove(a), ..before[b] },
                        ));
                        assert(before[b].outbound.remove(a) =~= g[b].outbound.remove(a));
                    },
                    None => {
                        assert(self@ =~= before);
                        assert(inbound_nodes@.to_set().contains(b));
                        assert(has_back(g, b, a));
                    },
                }
            }
            i += 1;
        }
        proof {
            let h = remove_node_spec(g, a).unwrap();
            assert forall|k: u64| #[trigger] self@.contains_key(k) implies self@[k] == h[k] by {
                if has_edge(g, a, k) {
                    assert(outbound_nodes@.to_set().contains(k));
                    let j = choose|j: int| 0 <= j < outbound_nodes@.len() && outbound_nodes@[j] == k;
                    assert(self@[outbound_nodes@[j]].inbound == g[k].inbound.remove(a));
                } else {
                    assert(!has_back(g, a, k));
                    assert(g[k].inbound.remove(a) =~= g[k].inbound);
                }
                if has_back(g, k, a) {
                    assert(inbound_nodes@.to_set().contains(k));
                    let j = choose|j: int| 0 <= j < inbound_nodes@.len() && inbound_nodes@[j] == k;
                    assert(self@[inbound_nodes@[j]].outbound == g[k].outbound.remove(a));
                } else {
                    assert(!has_edge(g, k, a));
                    assert(g[k].outbound.remove(a) =~= g[k].outbound);
                }
            }
            assert(self@ =~= h);
            lemma_without_node_wf(g, a);
        }
        Ok(())
    }

    /// The identifiers of the nodes, each once, in no order that is promised.
    pub fn node_keys(&self) -> (out: Vec<u64>)
        ensures
            out@.no_duplicates(),
            out@.to_set() == self@.dom(),
    {
        let mut out: Vec<u64> = Vec::new();
        let ghost all = self.nodes.keys().remaining();
        for k in it: self.nodes.keys()
            invariant
                it.seq() == all,
                out@ == all.take(it.index()).unref(),
        {
            out.push(*k);
            assert(out@ =~= all.take(it.index() + 1).unref());
        }
        assert(out@ =~= all.unref());
        assert(self@.dom() =~= self.nodes@.dom());
        out
    }

    /// The nodes of the graph, each once, in no order that is promised.
    pub fn get_nodes(&self) -> (out: Vec<&Node>)
        requires
            self.wf(),
        ensures
            lists_nodes(self@, node_views(out@)),
    {
        let keys = self.node_keys();
        let mut out: Vec<&Node> = Vec::new();
        let mut i: usize = 0;
        while i < keys.len()
            invariant
                i <= keys.len(),
                out.len() == i,
                self.wf(),
                keys@.no_duplicates(),
                keys@.to_set() == self@.dom(),
                forall|j: int| 0 <= j < i ==> (#[trigger] out@[j])@ == self@[keys@[j]],
            decreases keys.len() - i,
        {
            assert(keys@.to_set().contains(keys@[i as int]));
            match self.nodes.get(&keys[i]) {
                Some(node) => out.push(node),
                None => {},
            }
            i += 1;
        }
        proof {
            let g = self@;
            let s = node_views(out@);
            assert forall|j: int| 0 <= j < s.len() implies g.contains_key((#[trigger] s[j]).index)
                && g[s[j].index] == s[j] by {
                assert(out@[j]@ == g[keys@[j]]);
                assert(keys@.to_set().contains(keys@[j]));
            }
            assert forall|k: u64| #[trigger] g.contains_key(k) implies node_listed(s, k) by {
                assert(keys@.to_set().contains(k));
                let j = choose|j: int| 0 <= j < keys@.len() && keys@[j] == k;
                assert(out@[j]@ == g[keys@[j]]);
                assert(s[j].index == k);
            }
            assert forall|a: int, b: int| 0 <= a < b < s.len() implies (#[trigger] s[a]).index != (
            #[trigger] s[b]).index by {
                assert(out@[a]@ == g[keys@[a]]);
                assert(out@[b]@ == g[keys@[b]]);
                assert(keys@.to_set().contains(keys@[a]));
                assert(keys@.to_set().contains(keys@[b]));
            }
        }
        out
    }

    /// The edges of the graph, each once, in no order that is promised.
    pub fn get_edges(&self) -> (out: Vec<&Edge>)
        requires
            self.wf(),
        ensures
            lists_edges(self@, edge_views(out@)),
    {
        let keys = self.node_keys();
        let mut out: Vec<&Edge> = Vec::new();
        let ghost g = self@;
        let mut i: usize = 0;
        while i < keys.len()
            invariant
                i <= keys.len(),
                g == self@,
                graph_wf(g),
                keys@.no_duplicates(),
                keys@.to_set() == g.dom(),
                edges_of(g, edge_views(out@)),
                forall|x: int|
                    0 <= x < out@.len() ==> among(keys@, i as int, (#[trigger] edge_views(out@)[x]).source),
                forall|p: int, b: u64|
                    0 <= p < i && #[trigger] has_edge(g, keys@[p], b) ==> edge_listed(
                        edge_views(out@),
                        keys@[p],
                        b,
                    ),
            decreases keys.len() - i,
        {
            let a = keys[i];
            assert(keys@.to_set().contains(a));
            if let Some(node) = self.nodes.get(&a) {
                let targets = node.outbound_keys();
                let mut j: usize = 0;
                while j < targets.len()
                    invariant
                        i < keys.len(),
                        j <= targets.len(),
                        a == keys@[i as int],
                        g == self@,
                        graph_wf(g),
                        g.contains_key(a),
                        node@ == g[a],
                        keys@.no_duplicates(),
                        targets@.no_duplicates(),
                        targets@.to_set() == g[a].outbound.dom(),
                        edges_of(g, edge_views(out@)),
                        forall|x: int|
                            0 <= x < out@.len() ==> among(
                                keys@,
                                i as int,
                                (#[trigger] edge_views(out@)[x]).source,
                            ) || (edge_views(out@)[x].source == a && among(
                                targets@,
                                j as int,
                                edge_views(out@)[x].target,
                            )),
                        forall|p: int, b: u64|
                            0 <= p < i && #[trigger] has_edge(g, keys@[p], b) ==> edge_listed(
                                edge_views(out@),
                                keys@[p],
                                b,
                            ),
                        forall|q: int|
                            0 <= q < j ==> edge_listed(edge_views(out@), a, #[trigger] targets@[q]),
                    decreases targets.len() - j,
                {
                    let b = targets[j];
                    assert(targets@.to_set().contains(b));
                    if let Some(edge) = node.get_edge(&b) {
                        let ghost before = edge_views(out@);
                        out.push(edge);
                        proof {
                            let now = edge_views(out@);
                            assert(now =~= before.push(edge@));
                            assert(has_edge(g, a, b));
                            lemma_listing_grows(g, keys@, i as int, targets@, j as int, before, edge@);
                        }
                    }
                    j += 1;
                }
                proof {
                    let s = edge_views(out@);
                    assert forall|x: int| 0 <= x < out@.len() implies among(
                        keys@,
                        i + 1,
                        (#[trigger] s[x]).source,
                    ) by {
                        if s[x].source == a {
                            assert(keys@[i as int] == a);
                        } else {
                            let p = choose|p: int|
                                0 <= p < i && p < keys@.len() && #[trigger] keys@[p] == s[x].source;
                            assert(keys@[p] == s[x].source);
                        }
                    }
                    assert forall|p: int, b: u64|
                        0 <= p < i + 1 && #[trigger] has_edge(g, keys@[p], b) implies edge_listed(
                        s,
                        keys@[p],
                        b,
                    ) by {
                        if p == i {
                            assert(targets@.to_set().contains(b));
                            let q = choose|q: int| 0 <= q < targets@.len() && targets@[q] == b;
                            assert(edge_listed(s, a, targets@[q]));
                        }
                    }
                }
            }
            i += 1;
        }
        proof {
            let s = edge_views(out@);
            assert forall|a: u64, b: u64| #[trigger] has_edge(g, a, b) implies edge_listed(
                s,
                a,
                b,
            ) by {
                assert(keys@.to_set().contains(a));
                let p = choose|p: int| 0 <= p < keys@.len() && keys@[p] == a;
                assert(has_edge(g, keys@[p], b));
            }
        }
        out
    }

    /// The node stored under `key`, if there is one.
    pub fn get_node(&self, key: &u64) -> (out: Option<&Node>)
        ensures
            match out {
                Some(n) => get_node_spec(self@, *key) == Some(n@),
                None => get_node_spec(self@, *key) is None,
            },
    {
        self.nodes.get(key)
    }

    /// The edge from `source` to `target`, if there is one: found on the source, which
    /// owns it, under the target.
    pub fn get_edge(&self, source: &u64, target: &u64) -> (out: Option<&Edge>)
        ensures
            match out {
                Some(e) => has_edge(self@, *source, *target) && e@
                    == self@[*source].outbound[*target],
                None => !has_edge(self@, *source, *target),
            },
    {
        match self.nodes.get(source) {
            Some(node) => node.get_edge(target),
            None => None,
        }
    }

    /// Whether an edge from `outbound` to `inbound` can be added.
    pub fn contain_nodes_and_not_edge(&self, outbound: &u64, inbound: &u64) -> (out: Result<
        (),
        GraphError,
    >)
        ensures
            out == edge_fits(self@, *outbound, *inbound),
    {
        match self.nodes.get(outbound) {
            Some(outbound_node) => {
                if self.nodes.contains_key(inbound) {
                    if outbound_node.has_outbound(inbound) {
                        return Err(GraphError::EdgeExist());
                    }
                    Ok(())
                } else {
                    Err(GraphError::NodeNotExist())
                }
            },
            None => Err(GraphError::NodeNotExist()),
        }
    }

    /// Adds an edge between two nodes of the graph that no edge joins yet in that
    /// direction.
    pub fn add_edge(&mut self, new_edge: Edge) -> (out: Result<(), GraphError>)
        requires
            old(self).wf(),
        ensures
            final(self).wf(),
            match add_edge_spec(old(self)@, new_edge@) {
                Ok(g) => out is Ok && final(self)@ == g,
                Err(why) => out == Err::<(), GraphError>(why) && final(self)@ == old(self)@,
            },
    {
        let source = *new_edge.get_node_out();
        let target = *new_edge.get_node_in();
        match self.contain_nodes_and_not_edge(&source, &target) {
            Ok(_) => {
                let ghost g = self@;
                let ghost e = new_edge@;
                let mut outbound_node = self.nodes.remove(&source).unwrap();
                outbound_node.add_outbound(new_edge);
                self.nodes.insert(source, outbound_node);
                let ghost g1 = self@;
                assert(g1 =~= update_node(
                    g,
                    e.source,
                    |n: NodeModel| NodeModel { outbound: n.outbound.insert(e.target, e), ..n },
                ));
                let mut inbound_node = self.nodes.remove(&target).unwrap();
                inbound_node.add_inbound(source);
                self.nodes.insert(target, inbound_node);
                assert(self@ =~= with_edge(g, e));
                proof {
                    lemma_with_edge_wf(g, e);
                }
                Ok(())
            },
            Err(error) => Err(error),
        }
    }

    /// Removes the edge from `outbound` to `inbound`: from the source under the
    /// target, and from the target under the source.
    pub fn remove_edge(&mut self, outbound: &u64, inbound: &u64) -> (out: Result<
        (),
        GraphError,
    >)
        requires
            old(self).wf(),
        ensures
            final(self).wf(),
            match remove_edge_spec(old(self)@, *outbound, *inbound) {
                Ok(g) => out is Ok && final(self)@ == g,
                Err(why) => out == Err::<(), GraphError>(why) && final(self)@ == old(self)@,
            },
    {
        let source = *outbound;
        let target = *inbound;
        match self.nodes.get(outbound) {
            Some(node) => {
                if !node.has_outbound(inbound) {
                    return Err(GraphError::EdgeNotExist());
                }
            },
            None => {
                return Err(GraphError::NodeNotExist());
            },
        }
        match self.nodes.get(inbound) {
            Some(in_node) => {
                if !in_node.has_inbound(outbound) {
                    return Err(GraphError::EdgeNotExist());
                }
            },
            None => {
                return Err(GraphError::EdgeNotExist());
            },
        }
        let ghost g = self@;
        let mut node = self.nodes.remove(outbound).unwrap();
        node.remove_outbound(inbound);
        self.nodes.insert(source, node);
        let ghost g1 = self@;
        assert(g1 =~= update_node(
            g,
            source,
            |n: NodeModel| NodeModel { outbound: n.outbound.remove(target), ..n },
        ));
        let mut in_node = self.nodes.remove(inbound).unwrap();
        in_node.remove_inbound(outbound);
        self.nodes.insert(target, in_node);
        assert(self@ =~= without_edge(g, source, target));
        proof {
            lemma_without_edge_wf(g, source, target);
        }
        Ok(())
    }
}

/// What holds of a listing of edges, taken node by node and target by target, still
/// holds when the next edge is put at its end.
proof fn lemma_listing_grows(
    g: Map<u64, NodeModel>,
    keys: Seq<u64>,
    i: int,
    targets: Seq<u64>,
    j: int,
    s: Seq<EdgeModel>,
    e: EdgeModel,
)
    requires
        0 <= i < keys.len(),
        0 <= j < targets.len(),
        keys.no_duplicates(),
        targets.no_duplicates(),
        edges_of(g, s),
        has_edge(g, keys[i], targets[j]),
        e == g[keys[i]].outbound[targets[j]],
        e.source == keys[i],
        e.target == targets[j],
        forall|x: int|
            0 <= x < s.len() ==> among(keys, i, (#[trigger] s[x]).source) || (s[x].source == keys[i]
                && among(targets, j, s[x].target)),
        forall|p: int, b: u64|
            0 <= p < i && #[trigger] has_edge(g, keys[p], b) ==> edge_listed(s, keys[p], b),
        forall|q: int| 0 <= q < j ==> edge_listed(s, keys[i], #[trigger] targets[q]),
    ensures
        edges_of(g, s.push(e)),
        forall|x: int|
            0 <= x < s.push(e).len() ==> among(keys, i, (#[trigger] s.push(e)[x]).source) || (s.push(
                e,
            )[x].source == keys[i] && among(targets, j + 1, s.push(e)[x].target)),
        forall|p: int, b: u64|
            0 <= p < i && #[trigger] has_edge(g, keys[p], b) ==> edge_listed(s.push(e), keys[p], b),
        forall|q: int| 0 <= q < j + 1 ==> edge_listed(s.push(e), keys[i], #[trigger] targets[q]),
{
    let t = s.push(e);
    assert forall|a: u64, b: u64| edge_listed(s, a, b) implies edge_listed(t, a, b) by {
        let x = choose|x: int| 0 <= x < s.len() && (#[trigger] s[x]).source == a && s[x].target == b;
        assert(t[x] == s[x]);
    }
    assert(t[s.len() as int] == e);
    assert(edge_listed(t, keys[i], targets[j]));
    assert forall|x: int| 0 <= x < t.len() implies among(keys, i, (#[trigger] t[x]).source) || (
    t[x].source == keys[i] && among(targets, j + 1, t[x].target)) by {
        if x < s.len() {
            assert(t[x] == s[x]);
            if !among(keys, i, s[x].source) {
                let q = choose|q: int| 0 <= q < j && q < targets.len() && #[trigger] targets[q] == s[x].target;
                assert(targets[q] == t[x].target);
            }
        } else {
            assert(targets[j] == t[x].target);
        }
    }
    assert forall|x: int, y: int| 0 <= x < y < t.len() implies !((#[trigger] t[x]).source == (
    #[trigger] t[y]).source && t[x].target == t[y].target) by {
        assert(t[x] == s[x]);
        if y == s.len() {
            if among(keys, i, s[x].source) {
                let p = choose|p: int| 0 <= p < i && p < keys.len() && #[trigger] keys[p] == s[x].source;
                assert(keys[p] != keys[i]);
            } else {
                let q = choose|q: int| 0 <= q < j && q < targets.len() && #[trigger] targets[q] == s[x].target;
                assert(targets[q] != targets[j]);
            }
        } else {
            assert(t[y] == s[y]);
        }
    }
    assert forall|x: int| 0 <= x < t.len() implies has_edge(g, (#[trigger] t[x]).source, t[x].target)
        && g[t[x].source].outbound[t[x].target] == t[x] by {
        if x < s.len() {
            assert(t[x] == s[x]);
        }
    }
}

/// A graph to which a node without edges is added, under an identifier that is its
/// own and is not taken, is a graph.
pub proof fn lemma_with_node_wf(g: Map<u64, NodeModel>, index: u64, n: NodeModel)
    requires
        graph_wf(g),
        n.detached(),
        add_node_spec(g, index, n) is Ok,
    ensures
        graph_wf(add_node_spec(g, index, n).unwrap()),
{
    let h = add_node_spec(g, index, n).unwrap();
    assert(h.dom() =~= g.dom().insert(index));
    assert forall|a: u64, b: u64| #[trigger] has_edge(h, a, b) implies has_back(h, a, b)
        && h.contains_key(b) && h[a].outbound[b].source == a && h[a].outbound[b].target == b by {
        assert(a != index);
        assert(has_edge(g, a, b));
    }
    assert forall|a: u64, b: u64| #[trigger] has_back(h, a, b) implies has_edge(h, a, b)
        && h.contains_key(a) by {
        assert(b != index);
        assert(has_back(g, a, b));
    }
}

/// A graph from which a node is taken, with its edges, is a graph.
pub proof fn lemma_without_node_wf(g: Map<u64, NodeModel>, index: u64)
    requires
        graph_wf(g),
        g.contains_key(index),
    ensures
        graph_wf(remove_node_spec(g, index).unwrap()),
{
    let h = remove_node_spec(g, index).unwrap();
    assert(h.dom() =~= g.dom().remove(index));
    assert forall|a: u64, b: u64| #[trigger] has_edge(h, a, b) implies has_back(h, a, b)
        && h.contains_key(b) && h[a].outbound[b].source == a && h[a].outbound[b].target == b by {
        assert(has_edge(g, a, b));
    }
    assert forall|a: u64, b: u64| #[trigger] has_back(h, a, b) implies has_edge(h, a, b)
        && h.contains_key(a) by {
        assert(has_back(g, a, b));
    }
}

/// A graph to which an edge is added, as `add_edge_spec` allows, is a graph.
pub proof fn lemma_with_edge_wf(g: Map<u64, NodeModel>, e: EdgeModel)
    requires
        graph_wf(g),
        edge_fits(g, e.source, e.target) is Ok,
    ensures
        graph_wf(with_edge(g, e)),
{
    let h = with_edge(g, e);
    assert(h.dom() =~= g.dom());
    assert forall|a: u64, b: u64| #[trigger] has_edge(h, a, b) implies has_back(h, a, b)
        && h.contains_key(b) && h[a].outbound[b].source == a && h[a].outbound[b].target == b by {
        if !(a == e.source && b == e.target) {
            assert(has_edge(g, a, b));
        }
    }
    assert forall|a: u64, b: u64| #[trigger] has_back(h, a, b) implies has_edge(h, a, b)
        && h.contains_key(a) by {
        if !(a == e.source && b == e.target) {
            assert(has_back(g, a, b));
        }
    }
}

/// A graph from which an edge is taken is a graph.
pub proof fn lemma_without_edge_wf(g: Map<u64, NodeModel>, source: u64, target: u64)
    requires
        graph_wf(g),
        has_edge(g, source, target),
    ensures
        graph_wf(without_edge(g, source, target)),
{
    let h = without_edge(g, source, target);
    assert(has_back(g, source, target));
    assert(h.dom() =~= g.dom());
    assert forall|a: u64, b: u64| #[trigger] has_edge(h, a, b) implies has_back(h, a, b)
        && h.contains_key(b) && h[a].outbound[b].source == a && h[a].outbound[b].target == b by {
        assert(has_edge(g, a, b));
    }
    assert forall|a: u64, b: u64| #[trigger] has_back(h, a, b) implies has_edge(h, a, b)
        && h.contains_key(a) by {
        assert(has_back(g, a, b));
    }
}

} // verus!

//! That a graph which is saved and then loaded is the graph that was saved.

use vstd::prelude::*;
use crate::dft::deserializer::{load_edge_line, load_line, load_lines, load_node_line, Mode};
use crate::dft::serializer::{dft_lines, edge_lines, saved_form, separator};
use crate::dir_graph::edge::{edge_line, lemma_edge_line_round_trip, EdgeModel};
use crate::dir_graph::graph::{
    edge_listed, graph_wf, has_back, has_edge, lists_edges, lists_nodes, node_listed, with_edge,
};
use crate::dir_graph::node::{lemma_node_line_round_trip, node_line, NodeModel};
use crate::errors::GraphError;
use crate::text::{read_back, writable};

verus! {

/// Whether the text of every payload of a graph, of a node or of an edge, can be a
/// field of a line.
pub open spec fn all_writable(g: Map<u64, NodeModel>) -> bool {
    &&& forall|k: u64| #[trigger] g.contains_key(k) ==> writable(g[k].data)
    &&& forall|a: u64, b: u64| #[trigger] has_edge(g, a, b) ==> writable(g[a].outbound[b].data)
}

/// Whether every node and every edge of a graph has a payload.
pub open spec fn all_present(g: Map<u64, NodeModel>) -> bool {
    &&& forall|k: u64| #[trigger] g.contains_key(k) ==> g[k].data is Some
    &&& forall|a: u64, b: u64| #[trigger] has_edge(g, a, b) ==> g[a].outbound[b].data is Some
}

/// An edge as it is read back: with the text that stands for its payload as its
/// payload.
pub open spec fn edge_read_back(e: EdgeModel) -> EdgeModel {
    EdgeModel { data: read_back(e.data), ..e }
}

/// A graph as it is read back: the same nodes and the same edges, each with the text
/// that stands for its payload as its payload. Where every payload is present, that
/// is the graph itself.
pub open spec fn graph_read_back(g: Map<u64, NodeModel>) -> Map<u64, NodeModel> {
    Map::new(
        |k: u64| g.contains_key(k),
        |k: u64|
            NodeModel {
                index: g[k].index,
                data: read_back(g[k].data),
                outbound: Map::new(
                    |t: u64| g[k].outbound.contains_key(t),
                    |t: u64| edge_read_back(g[k].outbound[t]),
                ),
                inbound: g[k].inbound,
            },
    )
}

/// The graph after the first `i` of its nodes are read, and none of its edges.
pub open spec fn nodes_loaded(g: Map<u64, NodeModel>, nodes: Seq<NodeModel>, i: int) -> Map<
    u64,
    NodeModel,
> {
    Map::new(
        |k: u64| node_listed(nodes.take(i), k),
        |k: u64| NodeModel::fresh(k, read_back(g[k].data)),
    )
}

/// The graph after all of its nodes are read, and the first `j` of its edges.
pub open spec fn edges_loaded(g: Map<u64, NodeModel>, edges: Seq<EdgeModel>, j: int) -> Map<
    u64,
    NodeModel,
> {
    Map::new(
        |k: u64| g.contains_key(k),
        |k: u64|
            NodeModel {
                index: k,
                data: read_back(g[k].data),
                outbound: Map::new(
                    |t: u64| edge_listed(edges.take(j), k, t),
                    |t: u64| edge_read_back(g[k].outbound[t]),
                ),
                inbound: Set::new(|s: u64| edge_listed(edges.take(j), s, k)),
            },
    )
}

proof fn lemma_node_listed_next(nodes: Seq<NodeModel>, i: int, k: u64)
    requires
        0 <= i < nodes.len(),
    ensures
        node_listed(nodes.take(i + 1), k) <==> node_listed(nodes.take(i), k) || nodes[i].index == k,
{
    let s = nodes.take(i);
    let t = nodes.take(i + 1);
    if node_listed(s, k) {
        let x = choose|x: int| 0 <= x < s.len() && (#[trigger] s[x]).index == k;
        assert(t[x].index == k);
    }
    if nodes[i].index == k {
        assert(t[i].index == k);
    }
    if node_listed(t, k) {
        let x = choose|x: int| 0 <= x < t.len() && (#[trigger] t[x]).index == k;
        if x < i {
            assert(s[x].index == k);
        }
    }
}

proof fn lemma_edge_listed_next(edges: Seq<EdgeModel>, j: int, a: u64, b: u64)
    requires
        0 <= j < edges.len(),
    ensures
        edge_listed(edges.take(j + 1), a, b) <==> edge_listed(edges.take(j), a, b) || (
        edges[j].source == a && edges[j].target == b),
{
    let s = edges.take(j);
    let t = edges.take(j + 1);
    if edge_listed(s, a, b) {
        let x = choose|x: int| 0 <= x < s.len() && (#[trigger] s[x]).source == a && s[x].target == b;
        assert(t[x].source == a && t[x].target == b);
    }
    if edges[j].source == a && edges[j].target == b {
        assert(t[j].source == a && t[j].target == b);
    }
    if edge_listed(t, a, b) {
        let x = choose|x: int| 0 <= x < t.len() && (#[trigger] t[x]).source == a && t[x].target == b;
        if x < j {
            assert(s[x].source == a && s[x].target == b);
        }
    }
}

proof fn lemma_load_edges(g: Map<u64, NodeModel>, edges: Seq<EdgeModel>, j: int)
    requires
        graph_wf(g),
        all_writable(g),
        lists_edges(g, edges),
        0 <= j <= edges.len(),
    ensures
        load_lines(
            edges_loaded(g, edges, j),
            Mode::Edges,
            edge_lines(edges).subrange(j, edges.len() as int),
        ) == (edges_loaded(g, edges, edges.len() as int), Ok::<(), GraphError>(())),
    decreases edges.len() - j,
{
    let lines = edge_lines(edges).subrange(j, edges.len() as int);
    let now = edges_loaded(g, edges, j);
    if j < edges.len() {
        let e = edges[j];
        let next = edges_loaded(g, edges, j + 1);
        assert(lines[0] == edge_line(e));
        assert(has_edge(g, e.source, e.target) && g[e.source].outbound[e.target] == e);
        lemma_edge_line_round_trip(e);
        let r = edge_read_back(e);
        assert(edge_line(e) != separator()) by {
            assert(separator()[0] == '#');
        }
        assert(!edge_listed(edges.take(j), e.source, e.target)) by {
            if edge_listed(edges.take(j), e.source, e.target) {
                let x = choose|x: int|
                    0 <= x < edges.take(j).len() && (#[trigger] edges.take(j)[x]).source == e.source
                        && edges.take(j)[x].target == e.target;
                assert(edges[x].source == edges[j].source && edges[x].target == edges[j].target);
            }
        }
        assert(with_edge(now, r) =~= next) by {
            let h = with_edge(now, r);
            assert forall|k: u64| next.contains_key(k) implies #[trigger] h[k] == next[k] by {
                assert forall|t: u64|
                    h[k].outbound.contains_key(t) == next[k].outbound.contains_key(t) by {
                    lemma_edge_listed_next(edges, j, k, t);
                }
                assert(h[k].outbound =~= next[k].outbound);
                assert forall|s: u64| h[k].inbound.contains(s) == next[k].inbound.contains(s) by {
                    lemma_edge_listed_next(edges, j, s, k);
                }
                assert(h[k].inbound =~= next[k].inbound);
            }
        }
        assert(load_edge_line(now, lines[0]) == Ok::<Map<u64, NodeModel>, GraphError>(next));
        assert(load_line(now, Mode::Edges, lines[0]) == Ok::<
            (Map<u64, NodeModel>, Mode),
            GraphError,
        >((next, Mode::Edges)));
        assert(lines.drop_first() =~= edge_lines(edges).subrange(j + 1, edges.len() as int));
        lemma_load_edges(g, edges, j + 1);
    } else {
        assert(lines.len() == 0);
    }
}

proof fn lemma_load_nodes(
    g: Map<u64, NodeModel>,
    nodes: Seq<NodeModel>,
    edges: Seq<EdgeModel>,
    i: int,
)
    requires
        graph_wf(g),
        all_writable(g),
        lists_nodes(g, nodes),
        0 <= i <= nodes.len(),
    ensures
        load_lines(
            nodes_loaded(g, nodes, i),
            Mode::Nodes,
            dft_lines(nodes, edges).subrange(i, dft_lines(nodes, edges).len() as int),
        ) == load_lines(
            nodes_loaded(g, nodes, nodes.len() as int),
            Mode::Edges,
            edge_lines(edges),
        ),
    decreases nodes.len() - i,
{
    let all = dft_lines(nodes, edges);
    let lines = all.subrange(i, all.len() as int);
    let now = nodes_loaded(g, nodes, i);
    if i < nodes.len() {
        let n = nodes[i];
        let next = nodes_loaded(g, nodes, i + 1);
        assert(lines[0] == node_line(n.index, n.data));
        assert(g.contains_key(n.index) && g[n.index] == n);
        lemma_node_line_round_trip(n.index, n.data);
        assert(node_line(n.index, n.data) != separator()) by {
            assert(separator()[0] == '#');
        }
        assert(!node_listed(nodes.take(i), n.index)) by {
            if node_listed(nodes.take(i), n.index) {
                let x = choose|x: int|
                    0 <= x < nodes.take(i).len() && (#[trigger] nodes.take(i)[x]).index == n.index;
                assert(nodes[x].index == nodes[i].index);
            }
        }
        let fresh = NodeModel::fresh(n.index, read_back(n.data));
        assert(now.insert(n.index, fresh) =~= next) by {
            assert forall|k: u64| now.insert(n.index, fresh).contains_key(k) == next.contains_key(
                k,
            ) by {
                lemma_node_listed_next(nodes, i, k);
            }
        }
        assert(load_node_line(now, lines[0]) == Ok::<Map<u64, NodeModel>, GraphError>(next));
        assert(load_line(now, Mode::Nodes, lines[0]) == Ok::<
            (Map<u64, NodeModel>, Mode),
            GraphError,
        >((next, Mode::Nodes)));
        assert(lines.drop_first() =~= all.subrange(i + 1, all.len() as int));
        lemma_load_nodes(g, nodes, edges, i + 1);
    } else {
        assert(lines[0] == separator());
        assert(lines.drop_first() =~= edge_lines(edges));
    }
}

/// A graph in which the text of every payload can be a field of a line, saved and
/// then loaded into a graph without nodes, is loaded without a refusal, and what is
/// loaded is the graph as it is read back: the same nodes and the same edges, each
/// with the text of its payload as its payload; in whatever order the lines of the
/// nodes stood, and those of the edges.
pub proof fn law_saved_then_loaded(g: Map<u64, NodeModel>, lines: Seq<Seq<char>>)
    requires
        graph_wf(g),
        all_writable(g),
        saved_form(g, lines),
    ensures
        load_lines(Map::empty(), Mode::Nodes, lines) == (graph_read_back(g), Ok::<(), GraphError>(())),
{
    let (nodes, edges) = choose|nodes: Seq<NodeModel>, edges: Seq<EdgeModel>|
        lists_nodes(g, nodes) && lists_edges(g, edges) && lines == #[trigger] dft_lines(nodes, edges);
    let n = nodes.len() as int;
    let m = edges.len() as int;
    assert(nodes_loaded(g, nodes, 0) =~= Map::<u64, NodeModel>::empty()) by {
        assert forall|k: u64| !node_listed(nodes.take(0), k) by {}
    }
    assert(lines.subrange(0, lines.len() as int) =~= lines);
    lemma_load_nodes(g, nodes, edges, 0);
    assert(nodes.take(n) =~= nodes);
    assert(edges.take(m) =~= edges);
    assert(nodes_loaded(g, nodes, n) =~= edges_loaded(g, edges, 0)) by {
        let s = nodes_loaded(g, nodes, n);
        let t = edges_loaded(g, edges, 0);
        assert forall|k: u64| node_listed(nodes, k) implies g.contains_key(k) by {
            let x = choose|x: int| 0 <= x < nodes.len() && (#[trigger] nodes[x]).index == k;
        }
        assert forall|k: u64| t.contains_key(k) implies #[trigger] s[k] == t[k] by {
            assert(t[k].outbound =~= Map::<u64, EdgeModel>::empty());
            assert(t[k].inbound =~= Set::<u64>::empty());
        }
    }
    assert(edge_lines(edges).subrange(0, m) =~= edge_lines(edges));
    lemma_load_edges(g, edges, 0);
    assert(edges_loaded(g, edges, m) =~= graph_read_back(g)) by {
        let t = edges_loaded(g, edges, m);
        let r = graph_read_back(g);
        assert forall|a: u64, b: u64| edge_listed(edges, a, b) implies has_edge(g, a, b) by {
            let x = choose|x: int|
                0 <= x < edges.len() && (#[trigger] edges[x]).source == a && edges[x].target == b;
        }
        assert forall|k: u64| g.contains_key(k) implies #[trigger] t[k] == r[k] by {
            assert forall|b: u64| t[k].outbound.contains_key(b) == r[k].outbound.contains_key(b) by {
                if g[k].outbound.contains_key(b) {
                    assert(has_edge(g, k, b));
                }
            }
            assert(t[k].outbound =~= r[k].outbound);
            assert forall|a: u64| t[k].inbound.contains(a) == r[k].inbound.contains(a) by {
                if g[k].inbound.contains(a) {
                    assert(has_back(g, a, k));
                    assert(has_edge(g, a, k));
                }
                if edge_listed(edges, a, k) {
                    assert(has_edge(g, a, k));
                }
            }
            assert(t[k].inbound =~= r[k].inbound);
        }
    }
}

/// A graph in which every node and every edge has a payload is the graph that is
/// read back.
pub proof fn lemma_present_is_read_back(g: Map<u64, NodeModel>)
    requires
        all_present(g),
    ensures
        graph_read_back(g) == g,
{
    let r = graph_read_back(g);
    assert forall|k: u64| g.contains_key(k) implies #[trigger] r[k] == g[k] by {
        assert forall|t: u64| g[k].outbound.contains_key(t) implies #[trigger] r[k].outbound[t]
            == g[k].outbound[t] by {
            assert(has_edge(g, k, t));
        }
        assert(r[k].outbound =~= g[k].outbound);
    }
    assert(r =~= g);
}

/// A graph in which every node and every edge has a payload that is not empty and
/// holds no white space, saved and then loaded into a graph without nodes, is loaded
/// without a refusal, and the graph that is loaded is the graph that was saved: the
/// same nodes with the same payloads, and the same edges with the same payloads.
pub proof fn law_round_trip(g: Map<u64, NodeModel>, lines: Seq<Seq<char>>)
    requires
        graph_wf(g),
        all_present(g),
        all_writable(g),
        saved_form(g, lines),
    ensures
        load_lines(Map::empty(), Mode::Nodes, lines) == (g, Ok::<(), GraphError>(())),
{
    law_saved_then_loaded(g, lines);
    lemma_present_is_read_back(g);
}

} // verus!

//! Which nodes of a graph can be reached from which, along its edges.

use vstd::prelude::*;
use crate::dir_graph::graph::{graph_wf, has_edge};
use crate::dir_graph::node::NodeModel;

verus! {

/// Whether a sequence of nodes is a walk through the graph: it begins at a node of
/// the graph, and an edge leads from each of its nodes to the next.
pub open spec fn is_path(g: Map<u64, NodeModel>, p: Seq<u64>) -> bool {
    &&& p.len() > 0
    &&& g.contains_key(p[0])
    &&& forall|i: int| 0 <= i < p.len() - 1 ==> #[trigger] has_edge(g, p[i], p[i + 1])
}

/// Whether a walk through the graph leads from `a` to `b`. Every node of the graph
/// reaches itself.
pub open spec fn reachable(g: Map<u64, NodeModel>, a: u64, b: u64) -> bool {
    exists|p: Seq<u64>| #[trigger] is_path(g, p) && p[0] == a && p.last() == b
}

/// A node of the graph reaches itself.
pub proof fn lemma_reach_self(g: Map<u64, NodeModel>, a: u64)
    requires
        g.contains_key(a),
    ensures
        reachable(g, a, a),
{
    let p = seq![a];
    assert(is_path(g, p));
    assert(p[0] == a && p.last() == a);
}

/// What reaches the source of an edge reaches its target.
pub proof fn lemma_reach_step(g: Map<u64, NodeModel>, a: u64, b: u64, c: u64)
    requires
        reachable(g, a, b),
        has_edge(g, b, c),
    ensures
        reachable(g, a, c),
{
    let p = choose|p: Seq<u64>| #[trigger] is_path(g, p) && p[0] == a && p.last() == b;
    let q = p.push(c);
    assert forall|i: int| 0 <= i < q.len() - 1 implies #[trigger] has_edge(g, q[i], q[i + 1]) by {
        if i < p.len() - 1 {
            assert(has_edge(g, p[i], p[i + 1]));
        }
    }
    assert(is_path(g, q));
    assert(q[0] == a && q.last() == c);
}

/// Whether a set of nodes holds, with each of its nodes, every node that an edge
/// from it enters.
pub open spec fn closed(g: Map<u64, NodeModel>, s: Set<u64>) -> bool {
    forall|x: u64, y: u64| s.contains(x) && #[trigger] has_edge(g, x, y) ==> s.contains(y)
}

proof fn lemma_path_stays(g: Map<u64, NodeModel>, s: Set<u64>, p: Seq<u64>, i: int)
    requires
        closed(g, s),
        is_path(g, p),
        s.contains(p[0]),
        0 <= i < p.len(),
    ensures
        s.contains(p[i]),
    decreases i,
{
    if i > 0 {
        lemma_path_stays(g, s, p, i - 1);
        assert(has_edge(g, p[i - 1], p[i - 1 + 1]));
    }
}

/// A set of nodes that is closed holds whatever any of its nodes reaches.
pub proof fn lemma_closed_holds_reach(g: Map<u64, NodeModel>, s: Set<u64>, a: u64, b: u64)
    requires
        closed(g, s),
        s.contains(a),
        reachable(g, a, b),
    ensures
        s.contains(b),
{
    let p = choose|p: Seq<u64>| #[trigger] is_path(g, p) && p[0] == a && p.last() == b;
    lemma_path_stays(g, s, p, p.len() - 1);
}

/// What a node reaches is, like the node itself, a node of the graph.
pub proof fn lemma_reach_stays_in_graph(g: Map<u64, NodeModel>, a: u64, b: u64)
    requires
        graph_wf(g),
        reachable(g, a, b),
    ensures
        g.contains_key(a),
        g.contains_key(b),
{
    assert(closed(g, g.dom())) by {
        assert forall|x: u64, y: u64| g.dom().contains(x) && #[trigger] has_edge(
            g,
            x,
            y,
        ) implies g.dom().contains(y) by {}
    }
    let p = choose|p: Seq<u64>| #[trigger] is_path(g, p) && p[0] == a && p.last() == b;
    assert(g.dom().contains(p[0]));
    lemma_closed_holds_reach(g, g.dom(), a, b);
}

/// A node that no edge leaves reaches itself and nothing else.
pub proof fn lemma_reach_isolated(g: Map<u64, NodeModel>, a: u64, b: u64)
    requires
        g.contains_key(a),
        g[a].outbound.dom() =~= Set::<u64>::empty(),
    ensures
        reachable(g, a, b) <==> b == a,
{
    lemma_reach_self(g, a);
    if reachable(g, a, b) {
        let s = set![a];
        assert(closed(g, s)) by {
            assert forall|x: u64, y: u64| s.contains(x) && #[trigger] has_edge(g, x, y) implies s.contains(
                y,
            ) by {
                assert(g[a].outbound.dom().contains(y));
            }
        }
        lemma_closed_holds_reach(g, s, a, b);
    }
}

} // verus!

//! What follows for a caller from what the operations on a graph do.

use vstd::prelude::*;
use crate::dir_graph::edge::EdgeModel;
use crate::dir_graph::graph::{
    add_edge_spec, add_node_spec, get_node_spec, graph_wf, has_back, has_edge, remove_edge_spec,
    remove_node_spec,
};
use crate::dir_graph::node::NodeModel;
use crate::dir_graph::reach::{
    closed, lemma_closed_holds_reach, lemma_reach_isolated, lemma_reach_self, lemma_reach_step,
};
use crate::dir_graph::traverse::visit_order;
use crate::errors::GraphError;

verus! {

/// A node that is added under an identifier which the graph does not hold yet is
/// accepted, and is the node that is found under the identifier afterwards; adding
/// any node under the same identifier again is refused, the identifier being taken.
pub proof fn law_added_node_is_found(g: Map<u64, NodeModel>, k: u64, n: NodeModel, m: NodeModel)
    requires
        !g.contains_key(k),
        n.index == k,
    ensures
        add_node_spec(g, k, n) is Ok,
        get_node_spec(add_node_spec(g, k, n).unwrap(), k) == Some(n),
        add_node_spec(add_node_spec(g, k, n).unwrap(), k, m) == Err::<
            Map<u64, NodeModel>,
            GraphError,
        >(GraphError::OccupiedError()),
{
}

/// An edge between two nodes of the graph that no edge joins yet in its direction is
/// accepted; afterwards its source records it as leaving for its target, with what
/// it carries, and its target records it as entering from its source; adding any
/// edge between the same nodes in the same direction again is refused, the edge
/// being there.
pub proof fn law_added_edge_is_seen(g: Map<u64, NodeModel>, e: EdgeModel, again: EdgeModel)
    requires
        graph_wf(g),
        g.contains_key(e.source),
        g.contains_key(e.target),
        !has_edge(g, e.source, e.target),
        again.source == e.source,
        again.target == e.target,
    ensures
        add_edge_spec(g, e) is Ok,
        has_edge(add_edge_spec(g, e).unwrap(), e.source, e.target),
        has_back(add_edge_spec(g, e).unwrap(), e.source, e.target),
        add_edge_spec(g, e).unwrap()[e.source].outbound[e.target] == e,
        add_edge_spec(add_edge_spec(g, e).unwrap(), again) == Err::<
            Map<u64, NodeModel>,
            GraphError,
        >(GraphError::EdgeExist()),
{
}

/// Removing a node of the graph is accepted; afterwards the node is gone, no node
/// that is left records an edge to it or from it, and the edges between the nodes
/// that are left are as they were.
pub proof fn law_removed_node_leaves_no_edge(g: Map<u64, NodeModel>, a: u64, b: u64, c: u64)
    requires
        graph_wf(g),
        g.contains_key(a),
    ensures
        remove_node_spec(g, a) is Ok,
        !remove_node_spec(g, a).unwrap().contains_key(a),
        b != a ==> remove_node_spec(g, a).unwrap().contains_key(b) == g.contains_key(b),
        !has_edge(remove_node_spec(g, a).unwrap(), b, a),
        !has_back(remove_node_spec(g, a).unwrap(), a, b),
        !has_edge(remove_node_spec(g, a).unwrap(), a, b),
        !has_back(remove_node_spec(g, a).unwrap(), b, a),
        b != a && c != a ==> has_edge(remove_node_spec(g, a).unwrap(), b, c) == has_edge(g, b, c),
        b != a && c != a ==> has_back(remove_node_spec(g, a).unwrap(), b, c) == has_back(g, b, c),
{
    assert(has_edge(g, b, c) ==> g.contains_key(c));
    assert(has_back(g, b, c) ==> g.contains_key(b));
}

/// Removing an edge that the graph does not hold, from a node that it holds, is
/// refused, the edge not being there.
pub proof fn law_absent_edge_is_not_removed(g: Map<u64, NodeModel>, a: u64, b: u64)
    requires
        g.contains_key(a),
        !has_edge(g, a, b),
    ensures
        remove_edge_spec(g, a, b) == Err::<Map<u64, NodeModel>, GraphError>(
            GraphError::EdgeNotExist(),
        ),
{
}

/// An edge that was added can be removed, and the graph is then as it was before.
pub proof fn law_added_edge_is_removed(g: Map<u64, NodeModel>, e: EdgeModel)
    requires
        graph_wf(g),
        add_edge_spec(g, e) is Ok,
    ensures
        remove_edge_spec(add_edge_spec(g, e).unwrap(), e.source, e.target) == Ok::<
            Map<u64, NodeModel>,
            GraphError,
        >(g),
{
    let h = add_edge_spec(g, e).unwrap();
    let back = remove_edge_spec(h, e.source, e.target).unwrap();
    assert(!has_back(g, e.source, e.target)) by {
        if has_back(g, e.source, e.target) {
            assert(has_edge(g, e.source, e.target));
        }
    }
    assert forall|k: u64| g.contains_key(k) implies #[trigger] back[k] == g[k] by {
        assert(back[k].outbound =~= g[k].outbound);
        assert(back[k].inbound =~= g[k].inbound);
    }
    assert(back =~= g);
}

/// A walk from a node that no edge leaves visits that node and no other.
pub proof fn law_walk_from_isolated(g: Map<u64, NodeModel>, a: u64, order: Seq<u64>)
    requires
        g.contains_key(a),
        g[a].outbound.dom() =~= Set::<u64>::empty(),
        visit_order(g, a, order),
    ensures
        order == seq![a],
{
    assert forall|k: u64| order.contains(k) implies k == a by {
        lemma_reach_isolated(g, a, k);
    }
    if order.len() > 1 {
        assert(order.contains(order[1]));
        assert(order.contains(order[0]));
    }
    assert(order =~= seq![a]);
}

/// A walk from a node `a` that is joined with one other node `b` in a cycle, from `a`
/// to `b` and back, and with no third, visits `a` and then `b`, each once.
pub proof fn law_walk_round_cycle(g: Map<u64, NodeModel>, a: u64, b: u64, order: Seq<u64>)
    requires
        graph_wf(g),
        a != b,
        has_edge(g, a, b),
        has_edge(g, b, a),
        forall|k: u64| #[trigger] has_edge(g, a, k) ==> k == a || k == b,
        forall|k: u64| #[trigger] has_edge(g, b, k) ==> k == a || k == b,
        visit_order(g, a, order),
    ensures
        order == seq![a, b],
{
    let s = set![a, b];
    assert(closed(g, s));
    lemma_reach_self(g, a);
    lemma_reach_step(g, a, a, b);
    assert forall|k: u64| order.contains(k) implies k == a || k == b by {
        lemma_closed_holds_reach(g, s, a, k);
    }
    assert(order.contains(b));
    let i = choose|i: int| 0 <= i < order.len() && order[i] == b;
    if order.len() > 2 {
        assert(order.contains(order[0]));
        assert(order.contains(order[1]));
        assert(order.contains(order[2]));
    }
    assert(order =~= seq![a, b]);
}

} // verus!

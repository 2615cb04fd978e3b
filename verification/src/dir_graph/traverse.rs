//! The walk through a graph from a node, depth first.

use vstd::prelude::*;
use vstd::set_lib::lemma_len_subset;
use std::collections::HashSet;
use crate::dir_graph::graph::{graph_wf, has_edge, Graph};
use crate::dir_graph::node::{describes, NodeModel};
use crate::dir_graph::reach::{
    closed, lemma_closed_holds_reach, lemma_reach_self, lemma_reach_stays_in_graph,
    lemma_reach_step, reachable,
};
use crate::text::line_views;

verus! {

broadcast use vstd::std_specs::hash::group_hash_axioms;

/// Whether the node at position `j` of the order is entered by an edge from a node
/// that stands at position `i` or after it, and before `j`.
pub open spec fn entered_since(g: Map<u64, NodeModel>, order: Seq<u64>, i: int, j: int) -> bool {
    exists|l: int| i <= l < j && #[trigger] has_edge(g, order[l], order[j])
}

/// Whether each node of the order but the first is entered by an edge from a node
/// that stands before it.
pub open spec fn found_from_earlier(g: Map<u64, NodeModel>, order: Seq<u64>) -> bool {
    forall|j: int| 0 < j < order.len() ==> #[trigger] entered_since(g, order, 0, j)
}

/// Whether the order goes deep before it goes wide: as long as a node has an edge to
/// a node that is visited later, every node visited in between is entered from that
/// node or from one visited after it. So the walk always goes on from the node
/// visited last among those that still have an edge to a node not yet visited.
pub open spec fn depth_first(g: Map<u64, NodeModel>, order: Seq<u64>) -> bool {
    forall|i: int, j: int, k: int|
        0 <= i < j < k < order.len() && #[trigger] has_edge(g, order[i], order[k])
            ==> #[trigger] entered_since(g, order, i, j)
}

/// What holds of the order in which a walk from `start` visits the nodes of a graph:
/// no node is visited twice; the nodes visited are those that `start` reaches, and
/// none where `start` is not in the graph; `start` comes first; each node after it is
/// entered by an edge from a node visited before; and the order is depth first.
pub open spec fn visit_order(g: Map<u64, NodeModel>, start: u64, order: Seq<u64>) -> bool {
    &&& order.no_duplicates()
    &&& forall|k: u64| order.contains(k) <==> g.contains_key(start) && reachable(g, start, k)
    &&& g.contains_key(start) ==> order.len() > 0 && order[0] == start
    &&& found_from_earlier(g, order)
    &&& depth_first(g, order)
}

/// Whether lines describe a walk from `start`: three lines for each node that the walk
/// visits, in the order in which it visits them.
pub open spec fn walk_described(g: Map<u64, NodeModel>, start: u64, lines: Seq<Seq<char>>) -> bool {
    exists|order: Seq<u64>|
        {
            &&& #[trigger] visit_order(g, start, order)
            &&& lines.len() == 3 * order.len()
            &&& forall|i: int|
                0 <= i < order.len() ==> describes(
                    g[#[trigger] order[i]],
                    lines.subrange(3 * i, 3 * i + 3),
                )
        }
}

/// Whether every node visited after a node of `open` is entered from that node or
/// from one visited after it.
pub open spec fn below_open(g: Map<u64, NodeModel>, order: Seq<u64>, open: Set<u64>) -> bool {
    forall|i: int, j: int|
        0 <= i < j < order.len() && open.contains(order[i]) ==> #[trigger] entered_since(
            g,
            order,
            i,
            j,
        )
}

/// Whether no node of `open` stands in the order after position `top`.
pub open spec fn open_up_to(order: Seq<u64>, open: Set<u64>, top: int) -> bool {
    forall|i: int| 0 <= i < order.len() && open.contains(#[trigger] order[i]) ==> i <= top
}

/// What holds while the walk is under way: `visited` are the nodes of `order`, each
/// once; each is reached from `root`; every node that is visited and not in `open`,
/// the nodes whose edges are still being followed, has all the nodes that its edges
/// enter visited too; and the order so far is depth first.
pub open spec fn walking(
    g: Map<u64, NodeModel>,
    root: u64,
    visited: Set<u64>,
    order: Seq<u64>,
    open: Set<u64>,
) -> bool {
    &&& order.no_duplicates()
    &&& forall|k: u64| order.contains(k) <==> visited.contains(k)
    &&& forall|k: u64| visited.contains(k) ==> g.contains_key(k) && reachable(g, root, k)
    &&& forall|x: u64, y: u64|
        visited.contains(x) && !open.contains(x) && #[trigger] has_edge(g, x, y)
            ==> visited.contains(y)
    &&& found_from_earlier(g, order)
    &&& depth_first(g, order)
    &&& below_open(g, order, open)
    &&& order.len() > 0 ==> order[0] == root
}

/// Whether `now` begins with `before`.
pub open spec fn extends(before: Seq<u64>, now: Seq<u64>) -> bool {
    before.len() <= now.len() && forall|i: int| 0 <= i < before.len() ==> now[i] == before[i]
}

/// The walk stays a walk when the node `s`, which is not visited yet and is entered
/// from the node at position `top`, the last of the open nodes, is visited next and
/// opened.
proof fn lemma_visit(
    g: Map<u64, NodeModel>,
    root: u64,
    visited: Set<u64>,
    order: Seq<u64>,
    open: Set<u64>,
    s: u64,
    top: int,
)
    requires
        walking(g, root, visited, order, open),
        open.subset_of(visited),
        !visited.contains(s),
        g.contains_key(s),
        reachable(g, root, s),
        (order.len() == 0 && s == root) || (0 <= top < order.len() && has_edge(g, order[top], s)),
        open_up_to(order, open, top),
    ensures
        walking(g, root, visited.insert(s), order.push(s), open.insert(s)),
        open_up_to(order.push(s), open.insert(s), order.len() as int),
{
    let now = order.push(s);
    let n = order.len() as int;
    assert forall|k: u64| now.contains(k) <==> visited.insert(s).contains(k) by {
        if order.contains(k) {
            let i = choose|i: int| 0 <= i < order.len() && order[i] == k;
            assert(now[i] == k);
        }
        if k == s {
            assert(now[n] == s);
        }
        if now.contains(k) {
            let i = choose|i: int| 0 <= i < now.len() && now[i] == k;
            if i < n {
                assert(order[i] == k);
            }
        }
    }
    assert forall|i: int, j: int| 0 <= i < j < n && entered_since(g, order, i, j) implies entered_since(
        g,
        now,
        i,
        j,
    ) by {
        let l = choose|l: int| i <= l < j && #[trigger] has_edge(g, order[l], order[j]);
        assert(has_edge(g, now[l], now[j]));
    }
    assert forall|i: int| 0 <= i < n && open.contains(order[i]) implies entered_since(
        g,
        now,
        i,
        n,
    ) by {
        assert(i <= top);
        assert(has_edge(g, now[top], now[n]));
    }
    assert forall|j: int| 0 < j < now.len() implies #[trigger] entered_since(g, now, 0, j) by {
        if j < n {
            assert(entered_since(g, order, 0, j));
        } else {
            assert(has_edge(g, now[top], now[n]));
        }
    }
    assert forall|i: int, j: int, k: int|
        0 <= i < j < k < now.len() && #[trigger] has_edge(g, now[i], now[k]) implies #[trigger] entered_since(
        g,
        now,
        i,
        j,
    ) by {
        if k < n {
            assert(has_edge(g, order[i], order[k]));
            assert(entered_since(g, order, i, j));
        } else {
            assert(order.contains(order[i]));
            assert(has_edge(g, order[i], s));
            assert(open.contains(order[i]));
            assert(entered_since(g, order, i, j));
        }
    }
    assert forall|i: int, j: int|
        0 <= i < j < now.len() && open.insert(s).contains(now[i]) implies #[trigger] entered_since(
        g,
        now,
        i,
        j,
    ) by {
        assert(order.contains(order[i]));
        assert(open.contains(order[i]));
        if j < n {
            assert(entered_since(g, order, i, j));
        }
    }
    assert(now.no_duplicates());
}

impl Graph {
    /// Walks the graph from `s`, depth first, and gives the nodes in the order in
    /// which it visits them. Nothing is visited where `s` is not in the graph.
    pub fn dfs(&self, s: &u64) -> (out: Vec<u64>)
        requires
            self.wf(),
        ensures
            visit_order(self@, *s, out@),
    {
        let mut visited: HashSet<u64> = HashSet::new();
        let mut order: Vec<u64> = Vec::new();
        if self.get_node(s).is_none() {
            return order;
        }
        proof {
            lemma_reach_self(self@, *s);
        }
        self.recurs_dfs(*s, &mut visited, &mut order, Ghost(*s), Ghost(Set::empty()), Ghost(0));
        proof {
            let g = self@;
            assert(closed(g, visited@));
            assert forall|k: u64| reachable(g, *s, k) implies order@.contains(k) by {
                lemma_closed_holds_reach(g, visited@, *s, k);
            }
        }
        order
    }

    /// Walks the graph as `dfs` does, and describes each node that is visited, in the
    /// order of the walk, in three lines: the node, the nodes from which an edge enters
    /// it, and the nodes that an edge from it enters.
    pub fn dfs_lines(&self, s: &u64) -> (out: Vec<String>)
        requires
            self.wf(),
        ensures
            walk_described(self@, *s, line_views(out@)),
    {
        let order = self.dfs(s);
        let mut out: Vec<String> = Vec::new();
        let mut i: usize = 0;
        while i < order.len()
            invariant
                i <= order.len(),
                self.wf(),
                visit_order(self@, *s, order@),
                out@.len() == 3 * i,
                forall|j: int|
                    0 <= j < i ==> describes(
                        self@[#[trigger] order@[j]],
                        line_views(out@).subrange(3 * j, 3 * j + 3),
                    ),
            decreases order.len() - i,
        {
            proof {
                assert(order@.contains(order@[i as int]));
                lemma_reach_stays_in_graph(self@, *s, order@[i as int]);
            }
            if let Some(node) = self.get_node(&order[i]) {
                let mut lines = node.report();
                let ghost before = line_views(out@);
                let ghost added = line_views(lines@);
                out.append(&mut lines);
                proof {
                    assert(added.len() == 3);
                    assert(line_views(out@) =~= before + added);
                    assert((before + added).subrange(3 * i, 3 * i + 3) =~= added);
                    assert forall|j: int| 0 <= j < i implies describes(
                        self@[#[trigger] order@[j]],
                        line_views(out@).subrange(3 * j, 3 * j + 3),
                    ) by {
                        assert((before + added).subrange(3 * j, 3 * j + 3) =~= before.subrange(
                            3 * j,
                            3 * j + 3,
                        ));
                    }
                }
            }
            i += 1;
        }
        out
    }

    /// Visits `s`, unless it is visited already, and then whatever its edges lead to.
    fn recurs_dfs(
        &self,
        s: u64,
        visited: &mut HashSet<u64>,
        order: &mut Vec<u64>,
        Ghost(root): Ghost<u64>,
        Ghost(open): Ghost<Set<u64>>,
        Ghost(top): Ghost<int>,
    )
        requires
            graph_wf(self@),
            walking(self@, root, old(visited)@, old(order)@, open),
            open.subset_of(old(visited)@),
            self@.contains_key(s),
            reachable(self@, root, s),
            (old(order)@.len() == 0 && s == root) || (0 <= top < old(order)@.len() && has_edge(
                self@,
                old(order)@[top],
                s,
            )),
            open_up_to(old(order)@, open, top),
        ensures
            walking(self@, root, final(visited)@, final(order)@, open),
            old(visited)@.subset_of(final(visited)@),
            final(visited)@.contains(s),
            extends(old(order)@, final(order)@),
        decreases self@.dom().difference(old(visited)@).len(),
    {
        if !visited.contains(&s) {
            let ghost g = self@;
            let ghost entry = visited@;
            let ghost mark = open.insert(s);
            let ghost here = order@.len() as int;
            proof {
                lemma_visit(g, root, visited@, order@, open, s, top);
            }
            visited.insert(s);
            order.push(s);
            if let Some(node) = self.get_node(&s) {
                let targets = node.outbound_keys();
                let mut i: usize = 0;
                while i < targets.len()
                    invariant
                        i <= targets.len(),
                        g == self@,
                        graph_wf(g),
                        g.contains_key(s),
                        reachable(g, root, s),
                        targets@.to_set() == g[s].outbound.dom(),
                        mark == open.insert(s),
                        walking(g, root, visited@, order@, mark),
                        mark.subset_of(visited@),
                        entry.insert(s).subset_of(visited@),
                        !entry.contains(s),
                        entry == old(visited)@,
                        extends(old(order)@, order@),
                        here == old(order)@.len(),
                        here < order@.len(),
                        order@[here] == s,
                        open_up_to(order@, mark, here),
                        forall|j: int| 0 <= j < i ==> visited@.contains(#[trigger] targets@[j]),
                    decreases targets.len() - i,
                {
                    let next = targets[i];
                    let ghost order_before = order@;
                    let ghost visited_before = visited@;
                    proof {
                        assert(targets@.to_set().contains(next));
                        assert(has_edge(g, s, next));
                        lemma_reach_step(g, root, s, next);
                        let before = g.dom().difference(entry);
                        let now = g.dom().difference(visited@);
                        assert(before.finite());
                        assert(before.contains(s));
                        assert(before.remove(s).len() < before.len());
                        assert(now.subset_of(before.remove(s)));
                        lemma_len_subset(now, before.remove(s));
                    }
                    self.recurs_dfs(
                        next,
                        visited,
                        order,
                        Ghost(root),
                        Ghost(mark),
                        Ghost(here),
                    );
                    proof {
                        assert forall|x: int|
                            0 <= x < order@.len() && mark.contains(
                                #[trigger] order@[x],
                            ) implies x <= here by {
                            if x >= order_before.len() {
                                assert(visited_before.contains(order@[x]));
                                assert(order_before.contains(order@[x]));
                                let y = choose|y: int|
                                    0 <= y < order_before.len() && order_before[y] == order@[x];
                                assert(order@[y] == order@[x]);
                            } else {
                                assert(order_before[x] == order@[x]);
                            }
                        }
                    }
                    i += 1;
                }
                proof {
                    assert forall|x: u64, y: u64|
                        visited@.contains(x) && !open.contains(x) && #[trigger] has_edge(
                            g,
                            x,
                            y,
                        ) implies visited@.contains(y) by {
                        if x == s {
                            assert(targets@.to_set().contains(y));
                            let j = choose|j: int| 0 <= j < targets@.len() && targets@[j] == y;
                            assert(visited@.contains(targets@[j]));
                        }
                    }
                    assert(below_open(g, order@, open)) by {
                        assert forall|i: int, j: int|
                            0 <= i < j < order@.len() && open.contains(
                                order@[i],
                            ) implies #[trigger] entered_since(g, order@, i, j) by {
                            assert(mark.contains(order@[i]));
                        }
                    }
                }
            }
        }
    }
}

} // verus!

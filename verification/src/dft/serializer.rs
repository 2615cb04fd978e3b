//! Writing a graph as lines.

use vstd::prelude::*;
use vstd::string::*;
use crate::dir_graph::edge::{edge_line, EdgeModel};
use crate::dir_graph::graph::{edge_views, lists_edges, lists_nodes, node_views, Graph};
use crate::dir_graph::node::{node_line, NodeModel};
use crate::text::line_views;

verus! {

/// The line that parts the nodes from the edges.
pub open spec fn separator() -> Seq<char> {
    seq!['#']
}

/// The lines of a sequence of nodes, in its order.
pub open spec fn node_lines(s: Seq<NodeModel>) -> Seq<Seq<char>> {
    Seq::new(s.len(), |i: int| node_line(s[i].index, s[i].data))
}

/// The lines of a sequence of edges, in its order.
pub open spec fn edge_lines(s: Seq<EdgeModel>) -> Seq<Seq<char>> {
    Seq::new(s.len(), |i: int| edge_line(s[i]))
}

/// The saved form of the given nodes and edges.
pub open spec fn dft_lines(nodes: Seq<NodeModel>, edges: Seq<EdgeModel>) -> Seq<Seq<char>> {
    node_lines(nodes) + seq![separator()] + edge_lines(edges)
}

/// Whether lines are a saved form of a graph: its nodes in some order, each once, the
/// separator, and its edges in some order, each once.
pub open spec fn saved_form(g: Map<u64, NodeModel>, lines: Seq<Seq<char>>) -> bool {
    exists|nodes: Seq<NodeModel>, edges: Seq<EdgeModel>|
        lists_nodes(g, nodes) && lists_edges(g, edges) && lines == #[trigger] dft_lines(nodes, edges)
}

/// Whether `now` is `before` with the lines of the nodes of a graph after it.
pub open spec fn nodes_written(
    g: Map<u64, NodeModel>,
    before: Seq<Seq<char>>,
    now: Seq<Seq<char>>,
) -> bool {
    exists|nodes: Seq<NodeModel>| lists_nodes(g, nodes) && now == before + #[trigger] node_lines(nodes)
}

/// Whether `now` is `before` with the lines of the edges of a graph after it.
pub open spec fn edges_written(
    g: Map<u64, NodeModel>,
    before: Seq<Seq<char>>,
    now: Seq<Seq<char>>,
) -> bool {
    exists|edges: Seq<EdgeModel>| lists_edges(g, edges) && now == before + #[trigger] edge_lines(edges)
}

impl Graph {
    /// Puts the line of each node at the end of `out`.
    pub fn write_nodes(&self, out: &mut Vec<String>)
        requires
            self.wf(),
        ensures
            nodes_written(self@, line_views(old(out)@), line_views(final(out)@)),
    {
        let nodes = self.get_nodes();
        let ghost models = node_views(nodes@);
        let ghost before = line_views(out@);
        let mut i: usize = 0;
        assert(line_views(out@) =~= before + node_lines(models.take(0)));
        while i < nodes.len()
            invariant
                i <= nodes.len(),
                models == node_views(nodes@),
                line_views(out@) == before + node_lines(models.take(i as int)),
            decreases nodes.len() - i,
        {
            let line = nodes[i].to_dft();
            let ghost written = line_views(out@);
            out.push(line);
            proof {
                assert(models[i as int] == nodes@[i as int]@);
                assert(line_views(out@) =~= written.push(line@));
                assert(node_lines(models.take(i + 1)) =~= node_lines(models.take(i as int)).push(
                    line@,
                ));
                assert(line_views(out@) =~= before + node_lines(models.take(i + 1)));
            }
            i += 1;
        }
        assert(models.take(nodes.len() as int) =~= models);
    }

    /// Puts the line of each edge at the end of `out`.
    pub fn write_edges(&self, out: &mut Vec<String>)
        requires
            self.wf(),
        ensures
            edges_written(self@, line_views(old(out)@), line_views(final(out)@)),
    {
        let edges = self.get_edges();
        let ghost models = edge_views(edges@);
        let ghost before = line_views(out@);
        let mut i: usize = 0;
        assert(line_views(out@) =~= before + edge_lines(models.take(0)));
        while i < edges.len()
            invariant
                i <= edges.len(),
                models == edge_views(edges@),
                line_views(out@) == before + edge_lines(models.take(i as int)),
            decreases edges.len() - i,
        {
            let line = edges[i].to_dft();
            let ghost written = line_views(out@);
            out.push(line);
            proof {
                assert(models[i as int] == edges@[i as int]@);
                assert(line_views(out@) =~= written.push(line@));
                assert(edge_lines(models.take(i + 1)) =~= edge_lines(models.take(i as int)).push(
                    line@,
                ));
                assert(line_views(out@) =~= before + edge_lines(models.take(i + 1)));
            }
            i += 1;
        }
        assert(models.take(edges.len() as int) =~= models);
    }

    /// The saved form of the graph, line by line.
    pub fn serialize(&self) -> (out: Vec<String>)
        requires
            self.wf(),
        ensures
            saved_form(self@, line_views(out@)),
    {
        let mut out: Vec<String> = Vec::new();
        assert(line_views(out@) =~= Seq::<Seq<char>>::empty());
        self.write_nodes(&mut out);
        let ghost first = line_views(out@);
        proof {
            reveal_strlit("#");
        }
        out.push(String::from_str("#"));
        let ghost second = line_views(out@);
        assert(second =~= first + seq![separator()]) by {
            assert("#"@ =~= separator());
        }
        self.write_edges(&mut out);
        proof {
            let nodes = choose|nodes: Seq<NodeModel>|
                lists_nodes(self@, nodes) && first == Seq::<Seq<char>>::empty() + #[trigger] node_lines(
                    nodes,
                );
            let edges = choose|edges: Seq<EdgeModel>|
                lists_edges(self@, edges) && line_views(out@) == second + #[trigger] edge_lines(
                    edges,
                );
            assert(line_views(out@) =~= dft_lines(nodes, edges));
        }
        out
    }
}

} // verus!

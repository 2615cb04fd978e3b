//! Reading a graph from lines.

use vstd::prelude::*;
use vstd::string::*;
use crate::dft::serializer::separator;
use crate::dir_graph::edge::{parse_edge_line, Edge};
use crate::dir_graph::graph::{add_edge_spec, add_node_spec, Graph};
use crate::dir_graph::node::{parse_node_line, Node, NodeModel};
use crate::errors::GraphError;
use crate::text::line_views;

verus! {

/// What the next line is read as.
#[derive(Debug)]
pub enum Mode {
    /// A node.
    Nodes,
    /// An edge.
    Edges,
}

/// Reading a line as a node and adding the node: refused where the line is no node,
/// and where the node cannot be added.
pub open spec fn load_node_line(g: Map<u64, NodeModel>, line: Seq<char>) -> Result<
    Map<u64, NodeModel>,
    GraphError,
> {
    match parse_node_line(line) {
        Some(n) => add_node_spec(g, n.index, n),
        None => Err(GraphError::ParseStrError()),
    }
}

/// Reading a line as an edge and adding the edge: refused where the line is no edge,
/// and where the edge cannot be added.
pub open spec fn load_edge_line(g: Map<u64, NodeModel>, line: Seq<char>) -> Result<
    Map<u64, NodeModel>,
    GraphError,
> {
    match parse_edge_line(line) {
        Some(e) => add_edge_spec(g, e),
        None => Err(GraphError::ParseStrError()),
    }
}

/// Reading one line: the separator changes nothing but what the lines after it are
/// read as, which is edges; any other line is read as the mode says.
pub open spec fn load_line(g: Map<u64, NodeModel>, mode: Mode, line: Seq<char>) -> Result<
    (Map<u64, NodeModel>, Mode),
    GraphError,
> {
    if line == separator() {
        Ok((g, Mode::Edges))
    } else {
        match mode {
            Mode::Nodes => match load_node_line(g, line) {
                Ok(h) => Ok((h, Mode::Nodes)),
                Err(why) => Err(why),
            },
            Mode::Edges => match load_edge_line(g, line) {
                Ok(h) => Ok((h, Mode::Edges)),
                Err(why) => Err(why),
            },
        }
    }
}

/// Reading lines one after another, up to the first that is refused: the graph that
/// is left, and how the reading ended.
pub open spec fn load_lines(g: Map<u64, NodeModel>, mode: Mode, lines: Seq<Seq<char>>) -> (
    Map<u64, NodeModel>,
    Result<(), GraphError>,
)
    decreases lines.len(),
{
    if lines.len() == 0 {
        (g, Ok(()))
    } else {
        match load_line(g, mode, lines[0]) {
            Ok((h, next)) => load_lines(h, next, lines.drop_first()),
            Err(why) => (g, Err(why)),
        }
    }
}

/// Whether a line is the separator.
pub fn is_separator(line: &str) -> (out: bool)
    ensures
        out == (line@ == separator()),
{
    let out = line.unicode_len() == 1 && line.get_char(0) == '#';
    assert(out == (line@ =~= separator()));
    out
}

impl Graph {
    /// Reads a line as a node, and adds the node.
    pub fn deserialize_nodes(&mut self, line: &str) -> (out: Result<(), GraphError>)
        requires
            old(self).wf(),
        ensures
            final(self).wf(),
            match load_node_line(old(self)@, line@) {
                Ok(g) => out is Ok && final(self)@ == g,
                Err(why) => out == Err::<(), GraphError>(why) && final(self)@ == old(self)@,
            },
    {
        match Node::from_str(line) {
            Ok(node) => {
                let index = *node.get_index();
                self.add_node(index, node)
            },
            Err(why) => Err(why),
        }
    }

    /// Reads a line as an edge, and adds the edge.
    pub fn deserialize_edges(&mut self, line: &str) -> (out: Result<(), GraphError>)
        requires
            old(self).wf(),
        ensures
            final(self).wf(),
            match load_edge_line(old(self)@, line@) {
                Ok(g) => out is Ok && final(self)@ == g,
                Err(why) => out == Err::<(), GraphError>(why) && final(self)@ == old(self)@,
            },
    {
        match Edge::from_str(line) {
            Ok(edge) => self.add_edge(edge),
            Err(why) => Err(why),
        }
    }

    /// Reads one line in the given mode, and says in which mode the next is read.
    pub fn deserialize_line(&mut self, mode: Mode, line: &str) -> (out: Result<Mode, GraphError>)
        requires
            old(self).wf(),
        ensures
            final(self).wf(),
            match load_line(old(self)@, mode, line@) {
                Ok((g, next)) => out == Ok::<Mode, GraphError>(next) && final(self)@ == g,
                Err(why) => out == Err::<Mode, GraphError>(why) && final(self)@ == old(self)@,
            },
    {
        if is_separator(line) {
            return Ok(Mode::Edges);
        }
        match mode {
            Mode::Nodes => match self.deserialize_nodes(line) {
                Ok(_) => Ok(Mode::Nodes),
                Err(why) => Err(why),
            },
            Mode::Edges => match self.deserialize_edges(line) {
                Ok(_) => Ok(Mode::Edges),
                Err(why) => Err(why),
            },
        }
    }

    /// Reads the saved form of a graph into this graph, line by line, and stops at
    /// the first line that is refused. What was read before that line stays.
    pub fn deserialize(&mut self, lines: &Vec<String>) -> (out: Result<(), GraphError>)
        requires
            old(self).wf(),
        ensures
            final(self).wf(),
            (final(self)@, out) == load_lines(old(self)@, Mode::Nodes, line_views(lines@)),
    {
        let ghost all = line_views(lines@);
        let mut mode = Mode::Nodes;
        let mut i: usize = 0;
        assert(all.subrange(0, all.len() as int) =~= all);
        while i < lines.len()
            invariant
                i <= lines.len(),
                self.wf(),
                all == line_views(lines@),
                load_lines(old(self)@, Mode::Nodes, all) == load_lines(
                    self@,
                    mode,
                    all.subrange(i as int, all.len() as int),
                ),
            decreases lines.len() - i,
        {
            let ghost rest = all.subrange(i as int, all.len() as int);
            assert(rest[0] == lines@[i as int]@);
            assert(rest.drop_first() =~= all.subrange(i + 1, all.len() as int));
            match self.deserialize_line(mode, lines[i].as_str()) {
                Ok(next) => {
                    mode = next;
                },
                Err(why) => {
                    return Err(why);
                },
            }
            i += 1;
        }
        Ok(())
    }
}

} // verus!

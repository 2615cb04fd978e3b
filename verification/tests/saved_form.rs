use graph_lib::dft::deserializer::{is_separator, Mode};
use graph_lib::dir_graph::edge::Edge;
use graph_lib::dir_graph::graph::Graph;
use graph_lib::dir_graph::node::{Node, NodeBuilder};
use graph_lib::errors::GraphError;
use graph_lib::text::{char_is_space, parse_id, render_id, split_field};

fn text(s: &str) -> String {
    s.to_string()
}

fn lines_of(s: &[&str]) -> Vec<String> {
    s.iter().map(|l| l.to_string()).collect()
}

fn scenario() -> Graph {
    let mut graph = Graph::new();
    graph.add_node(1, NodeBuilder::new(1).data(text("x")).build()).unwrap();
    graph.add_node(2, NodeBuilder::new(2).data(text("y")).build()).unwrap();
    graph.add_edge(Edge::new(text("e"), 1, 2)).unwrap();
    graph
}

fn node_list(graph: &Graph) -> Vec<(u64, Option<String>)> {
    let mut nodes: Vec<(u64, Option<String>)> =
        graph.get_nodes().iter().map(|n| (*n.get_index(), n.get_data().clone())).collect();
    nodes.sort();
    nodes
}

fn edge_list(graph: &Graph) -> Vec<(u64, u64, Option<String>)> {
    let mut edges: Vec<(u64, u64, Option<String>)> = graph
        .get_edges()
        .iter()
        .map(|e| (*e.get_node_out(), *e.get_node_in(), e.get_data().clone()))
        .collect();
    edges.sort();
    edges
}

#[test]
fn identifiers_are_written_in_decimal() {
    assert_eq!(render_id(0), "0");
    assert_eq!(render_id(7), "7");
    assert_eq!(render_id(10), "10");
    assert_eq!(render_id(1234567890), "1234567890");
    assert_eq!(render_id(u64::MAX), "18446744073709551615");
}

#[test]
fn identifiers_are_read_from_decimal() {
    assert_eq!(parse_id("0"), Some(0));
    assert_eq!(parse_id("42"), Some(42));
    assert_eq!(parse_id("+42"), Some(42));
    assert_eq!(parse_id("007"), Some(7));
    assert_eq!(parse_id("18446744073709551615"), Some(u64::MAX));
    assert_eq!(parse_id("18446744073709551616"), None);
    assert_eq!(parse_id("99999999999999999999999"), None);
    assert_eq!(parse_id(""), None);
    assert_eq!(parse_id("+"), None);
    assert_eq!(parse_id("-1"), None);
    assert_eq!(parse_id("1a"), None);
    assert_eq!(parse_id("a1"), None);
    assert_eq!(parse_id("1 "), None);
    assert_eq!(parse_id("++1"), None);
    assert_eq!(parse_id("1+"), None);
}

#[test]
fn identifiers_come_back_as_they_went() {
    for k in [0_u64, 1, 9, 10, 99, 100, 65535, 4294967296, u64::MAX - 1, u64::MAX] {
        assert_eq!(parse_id(&render_id(k)), Some(k));
        assert_eq!(parse_id(&k.to_string()), Some(k));
        assert_eq!(render_id(k), k.to_string());
    }
}

#[test]
fn white_space_is_what_parts_fields() {
    for c in [' ', '\t', '\n', '\r', '\u{b}', '\u{c}', '\u{85}', '\u{a0}', '\u{2003}', '\u{3000}'] {
        assert!(char_is_space(c));
    }
    for c in ['a', '0', '#', '+', '_', '\u{8}', '\u{e}', '\u{200b}', '\u{feff}'] {
        assert!(!char_is_space(c));
    }
    for code in 0..0x3100_u32 {
        if let Some(c) = char::from_u32(code) {
            assert_eq!(char_is_space(c), c.is_whitespace());
        }
    }
}

#[test]
fn fields_part_at_the_first_run_of_white_space() {
    assert_eq!(split_field("1 x"), Some(("1", "x")));
    assert_eq!(split_field("1 \t  x y"), Some(("1", "x y")));
    assert_eq!(split_field("1 "), Some(("1", "")));
    assert_eq!(split_field(" x"), Some(("", "x")));
    assert_eq!(split_field("1x"), None);
    assert_eq!(split_field(""), None);
    assert_eq!(split_field("\u{e9}\u{3000}\u{4e16}"), Some(("\u{e9}", "\u{4e16}")));
}

#[test]
fn node_line_holds_identifier_and_payload() {
    assert_eq!(NodeBuilder::new(1).data(text("x")).build().to_dft(), "1 x");
    assert_eq!(NodeBuilder::new(120).build().to_dft(), "120 None");
}

#[test]
fn edge_line_holds_both_ends_and_payload() {
    assert_eq!(Edge::new(text("e"), 1, 2).to_dft(), "1 2 e");
    assert_eq!(Edge::new(text("weight"), 30, 4).to_dft(), "30 4 weight");
}

#[test]
fn node_and_edge_show_themselves() {
    assert_eq!(NodeBuilder::new(1).data(text("x")).build().to_string(), "index: 1, data: x");
    assert_eq!(NodeBuilder::new(15).build().to_string(), "index: 15, data: None");
    assert_eq!(Edge::new(text("e"), 1, 2).to_string(), "e");
}

#[test]
fn node_is_read_from_its_line() {
    let node = Node::from_str("12 hello").unwrap();
    assert_eq!(*node.get_index(), 12);
    assert_eq!(node.get_data(), &Some(text("hello")));
    assert!(node.get_outbound().is_empty());
    assert!(node.get_inbound().is_empty());
    let wide = Node::from_str("3 \t two words").unwrap();
    assert_eq!(*wide.get_index(), 3);
    assert_eq!(wide.get_data(), &Some(text("two words")));
}

#[test]
fn node_line_with_the_word_none_gives_that_word() {
    let node = Node::from_str("4 None").unwrap();
    assert_eq!(node.get_data(), &Some(text("None")));
}

#[test]
fn node_line_that_is_no_node_is_refused() {
    for line in ["", "1", "1 ", " 1 x", "x y", "-1 x", "1.5 x", "18446744073709551616 x", "#"] {
        assert!(matches!(Node::from_str(line), Err(GraphError::ParseStrError())));
    }
}

#[test]
fn edge_is_read_from_its_line() {
    let edge = Edge::from_str("1 2 e").unwrap();
    assert_eq!(*edge.get_node_out(), 1);
    assert_eq!(*edge.get_node_in(), 2);
    assert_eq!(edge.get_data(), &Some(text("e")));
    let wide = Edge::from_str("10\t\t20   a b").unwrap();
    assert_eq!(*wide.get_node_out(), 10);
    assert_eq!(*wide.get_node_in(), 20);
    assert_eq!(wide.get_data(), &Some(text("a b")));
}

#[test]
fn edge_line_that_is_no_edge_is_refused() {
    for line in ["", "1", "1 2", "1 2 ", "1  ", " 1 2 e", "a 2 e", "1 b e", "1 -2 e", "#"] {
        assert!(matches!(Edge::from_str(line), Err(GraphError::ParseStrError())));
    }
}

#[test]
fn lines_come_back_as_they_went() {
    let node = NodeBuilder::new(77).data(text("payload")).build();
    let read = Node::from_str(&node.to_dft()).unwrap();
    assert_eq!(*read.get_index(), 77);
    assert_eq!(read.get_data(), &Some(text("payload")));
    let edge = Edge::new(text("w"), 5, 6);
    let read = Edge::from_str(&edge.to_dft()).unwrap();
    assert_eq!(*read.get_node_out(), 5);
    assert_eq!(*read.get_node_in(), 6);
    assert_eq!(read.get_data(), &Some(text("w")));
}

#[test]
fn separator_is_the_line_that_holds_a_hash_alone() {
    assert!(is_separator("#"));
    assert!(!is_separator(""));
    assert!(!is_separator("# "));
    assert!(!is_separator(" #"));
    assert!(!is_separator("##"));
    assert!(!is_separator("1 x"));
}

#[test]
fn two_nodes_and_an_edge_are_saved_as_four_lines() {
    let graph = scenario();
    let lines = graph.serialize();
    assert_eq!(lines.len(), 4);
    let mut nodes = vec![lines[0].clone(), lines[1].clone()];
    nodes.sort();
    assert_eq!(nodes, lines_of(&["1 x", "2 y"]));
    assert_eq!(lines[2], "#");
    assert_eq!(lines[3], "1 2 e");
}

#[test]
fn four_lines_are_loaded_as_two_nodes_and_an_edge() {
    let mut graph = Graph::new();
    graph.deserialize(&lines_of(&["1 x", "2 y", "#", "1 2 e"])).unwrap();
    assert_eq!(node_list(&graph), vec![(1, Some(text("x"))), (2, Some(text("y")))]);
    assert_eq!(edge_list(&graph), vec![(1, 2, Some(text("e")))]);
    assert!(graph.get_node(&1).unwrap().get_outbound().contains_key(&2));
    assert!(graph.get_node(&2).unwrap().get_inbound().contains(&1));
    assert_eq!(node_list(&graph), node_list(&scenario()));
    assert_eq!(edge_list(&graph), edge_list(&scenario()));
}

#[test]
fn saved_and_loaded_graph_is_the_same() {
    let mut graph = Graph::new();
    for k in [5_u64, 1, 9, 300, 42] {
        graph.add_node(k, NodeBuilder::new(k).data(format!("n{}", k)).build()).unwrap();
    }
    for (a, b) in [(5_u64, 1_u64), (1, 5), (9, 9), (300, 42), (42, 1), (1, 9)] {
        graph.add_edge(Edge::new(format!("e{}-{}", a, b), a, b)).unwrap();
    }
    let lines = graph.serialize();
    assert_eq!(lines.len(), 5 + 1 + 6);
    assert_eq!(lines[5], "#");
    let mut loaded = Graph::new();
    loaded.deserialize(&lines).unwrap();
    assert_eq!(node_list(&loaded), node_list(&graph));
    assert_eq!(edge_list(&loaded), edge_list(&graph));
    for k in [5_u64, 1, 9, 300, 42] {
        let mut was = graph.get_node(&k).unwrap().inbound_keys();
        let mut is = loaded.get_node(&k).unwrap().inbound_keys();
        was.sort();
        is.sort();
        assert_eq!(was, is);
    }
}

#[test]
fn empty_graph_is_saved_as_the_separator_alone() {
    let graph = Graph::new();
    assert_eq!(graph.serialize(), lines_of(&["#"]));
    let mut loaded = Graph::new();
    loaded.deserialize(&lines_of(&["#"])).unwrap();
    assert!(loaded.get_nodes().is_empty());
    loaded.deserialize(&Vec::new()).unwrap();
    assert!(loaded.get_nodes().is_empty());
}

#[test]
fn absent_payload_is_saved_as_the_word_none() {
    let mut graph = Graph::new();
    graph.add_node(3, NodeBuilder::new(3).build()).unwrap();
    let lines = graph.serialize();
    assert_eq!(lines, lines_of(&["3 None", "#"]));
    let mut loaded = Graph::new();
    loaded.deserialize(&lines).unwrap();
    assert_eq!(node_list(&loaded), vec![(3, Some(text("None")))]);
}

#[test]
fn write_nodes_and_write_edges_add_to_what_is_there() {
    let graph = scenario();
    let mut out = lines_of(&["first"]);
    graph.write_edges(&mut out);
    assert_eq!(out, lines_of(&["first", "1 2 e"]));
    graph.write_nodes(&mut out);
    assert_eq!(out.len(), 4);
    let mut nodes = vec![out[2].clone(), out[3].clone()];
    nodes.sort();
    assert_eq!(nodes, lines_of(&["1 x", "2 y"]));
}

#[test]
fn lines_without_separator_are_all_nodes() {
    let mut graph = Graph::new();
    graph.deserialize(&lines_of(&["1 x", "2 y", "3 z"])).unwrap();
    assert_eq!(
        node_list(&graph),
        vec![(1, Some(text("x"))), (2, Some(text("y"))), (3, Some(text("z")))]
    );
    assert!(graph.get_edges().is_empty());
}

#[test]
fn edge_line_before_the_separator_is_read_as_a_node() {
    let mut graph = Graph::new();
    graph.deserialize(&lines_of(&["1 2 e"])).unwrap();
    assert_eq!(node_list(&graph), vec![(1, Some(text("2 e")))]);
}

#[test]
fn separator_in_the_first_line_leaves_no_node_for_an_edge() {
    let mut graph = Graph::new();
    let loaded = graph.deserialize(&lines_of(&["#", "1 2 e"]));
    assert!(matches!(loaded, Err(GraphError::NodeNotExist())));
    assert!(graph.get_nodes().is_empty());
}

#[test]
fn second_separator_changes_nothing() {
    let mut graph = Graph::new();
    graph.deserialize(&lines_of(&["1 x", "2 y", "#", "1 2 e", "#", "2 1 f"])).unwrap();
    assert_eq!(edge_list(&graph), vec![(1, 2, Some(text("e"))), (2, 1, Some(text("f")))]);
}

#[test]
fn loading_stops_at_the_first_line_that_is_refused() {
    let mut graph = Graph::new();
    let loaded = graph.deserialize(&lines_of(&["1 x", "oops", "2 y"]));
    assert!(matches!(loaded, Err(GraphError::ParseStrError())));
    assert_eq!(node_list(&graph), vec![(1, Some(text("x")))]);

    let mut graph = Graph::new();
    let loaded = graph.deserialize(&lines_of(&["1 x", "1 y", "2 z"]));
    assert!(matches!(loaded, Err(GraphError::OccupiedError())));
    assert_eq!(node_list(&graph), vec![(1, Some(text("x")))]);

    let mut graph = Graph::new();
    let loaded = graph.deserialize(&lines_of(&["1 x", "2 y", "#", "1 2 e", "1 2 f", "2 1 g"]));
    assert!(matches!(loaded, Err(GraphError::EdgeExist())));
    assert_eq!(edge_list(&graph), vec![(1, 2, Some(text("e")))]);

    let mut graph = Graph::new();
    let loaded = graph.deserialize(&lines_of(&["1 x", "#", "1 2"]));
    assert!(matches!(loaded, Err(GraphError::ParseStrError())));

    let mut graph = Graph::new();
    let loaded = graph.deserialize(&lines_of(&["1 x", "", "2 y"]));
    assert!(matches!(loaded, Err(GraphError::ParseStrError())));
}

#[test]
fn lines_are_read_one_by_one() {
    let mut graph = Graph::new();
    let mode = graph.deserialize_line(Mode::Nodes, "1 x").unwrap();
    assert!(matches!(mode, Mode::Nodes));
    let mode = graph.deserialize_line(mode, "#").unwrap();
    assert!(matches!(mode, Mode::Edges));
    let mode = graph.deserialize_line(mode, "1 1 loop").unwrap();
    assert!(matches!(mode, Mode::Edges));
    let mode = graph.deserialize_line(mode, "#").unwrap();
    assert!(matches!(mode, Mode::Edges));
    assert!(matches!(
        graph.deserialize_line(mode, "1 x"),
        Err(GraphError::ParseStrError())
    ));
    assert_eq!(edge_list(&graph), vec![(1, 1, Some(text("loop")))]);
    graph.deserialize_nodes("2 y").unwrap();
    graph.deserialize_edges("2 1 e").unwrap();
    assert!(matches!(graph.deserialize_edges("2 3 e"), Err(GraphError::NodeNotExist())));
    assert!(matches!(graph.deserialize_nodes("2 z"), Err(GraphError::OccupiedError())));
    assert_eq!(node_list(&graph), vec![(1, Some(text("x"))), (2, Some(text("y")))]);
}

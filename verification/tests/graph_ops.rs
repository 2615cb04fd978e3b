use graph_lib::dir_graph::edge::Edge;
use graph_lib::dir_graph::graph::Graph;
use graph_lib::dir_graph::node::NodeBuilder;
use graph_lib::errors::GraphError;
use std::collections::HashMap;
use std::collections::HashSet;

fn text(s: &str) -> String {
    s.to_string()
}

fn two_nodes() -> Graph {
    let mut graph = Graph::new();
    graph.add_node(1, NodeBuilder::new(1).data(text("x")).build()).unwrap();
    graph.add_node(2, NodeBuilder::new(2).data(text("y")).build()).unwrap();
    graph
}

fn triangle() -> Graph {
    let mut graph = two_nodes();
    graph.add_node(3, NodeBuilder::new(3).build()).unwrap();
    graph.add_edge(Edge::new(text("a"), 1, 2)).unwrap();
    graph.add_edge(Edge::new(text("b"), 2, 3)).unwrap();
    graph.add_edge(Edge::new(text("c"), 3, 1)).unwrap();
    graph.add_edge(Edge::new(text("d"), 2, 1)).unwrap();
    graph
}

fn edge_pairs(graph: &Graph) -> Vec<(u64, u64)> {
    let mut pairs: Vec<(u64, u64)> =
        graph.get_edges().iter().map(|e| (*e.get_node_out(), *e.get_node_in())).collect();
    pairs.sort();
    pairs
}

fn node_ids(graph: &Graph) -> Vec<u64> {
    let mut ids: Vec<u64> = graph.get_nodes().iter().map(|n| *n.get_index()).collect();
    ids.sort();
    ids
}

#[test]
fn new_graph_is_empty() {
    let graph = Graph::new();
    assert!(graph.get_nodes().is_empty());
    assert!(graph.get_edges().is_empty());
    assert!(graph.get_node(&0).is_none());
    let other = Graph::default();
    assert!(other.get_nodes().is_empty());
}

#[test]
fn add_node_then_get_node_returns_it() {
    let graph = two_nodes();
    let node = graph.get_node(&1).unwrap();
    assert_eq!(*node.get_index(), 1);
    assert_eq!(node.get_data(), &Some(text("x")));
    assert!(node.get_outbound().is_empty());
    assert!(node.get_inbound().is_empty());
    assert!(graph.get_node(&3).is_none());
}

#[test]
fn node_without_payload_is_kept_without_payload() {
    let mut graph = Graph::new();
    graph.add_node(7, NodeBuilder::new(7).build()).unwrap();
    assert_eq!(graph.get_node(&7).unwrap().get_data(), &None);
}

#[test]
fn second_add_node_is_refused() {
    let mut graph = two_nodes();
    let again = graph.add_node(1, NodeBuilder::new(1).build());
    assert!(matches!(again, Err(GraphError::OccupiedError())));
    assert_eq!(graph.get_node(&1).unwrap().get_data(), &Some(text("x")));
    assert_eq!(node_ids(&graph), vec![1, 2]);
}

#[test]
fn taken_identifier_is_reported_before_a_wrong_one() {
    let mut graph = two_nodes();
    let again = graph.add_node(1, NodeBuilder::new(9).build());
    assert!(matches!(again, Err(GraphError::OccupiedError())));
}

#[test]
fn add_node_under_another_identifier_is_refused() {
    let mut graph = two_nodes();
    let wrong = graph.add_node(3, NodeBuilder::new(4).build());
    assert!(matches!(wrong, Err(GraphError::NotEqualIndexes())));
    assert!(graph.get_node(&3).is_none());
    assert!(graph.get_node(&4).is_none());
    assert_eq!(node_ids(&graph), vec![1, 2]);
}

#[test]
fn builder_keeps_what_it_is_given() {
    let mut outbound = HashMap::new();
    outbound.insert(2_u64, Edge::new(text("e"), 1, 2));
    let mut inbound = HashSet::new();
    inbound.insert(5_u64);
    let node = NodeBuilder::new(1)
        .data(text("x"))
        .outbound_edges(outbound)
        .inbound_edges(inbound)
        .build();
    assert_eq!(*node.get_index(), 1);
    assert_eq!(node.get_data(), &Some(text("x")));
    assert_eq!(node.get_outbound().len(), 1);
    assert_eq!(node.get_edge(&2).unwrap().get_data(), &Some(text("e")));
    assert!(node.get_edge(&3).is_none());
    assert!(node.has_outbound(&2));
    assert!(!node.has_outbound(&5));
    assert!(node.has_inbound(&5));
    assert!(!node.has_inbound(&2));
    assert_eq!(node.outbound_keys(), vec![2]);
    assert_eq!(node.inbound_keys(), vec![5]);
}

#[test]
fn node_is_detached_until_it_has_an_edge() {
    assert!(NodeBuilder::new(1).build().is_detached());
    assert!(NodeBuilder::new(1).data(text("x")).build().is_detached());
    let mut outbound = HashMap::new();
    outbound.insert(2_u64, Edge::new(text("e"), 1, 2));
    assert!(!NodeBuilder::new(1).outbound_edges(outbound).build().is_detached());
    let mut inbound = HashSet::new();
    inbound.insert(5_u64);
    assert!(!NodeBuilder::new(1).inbound_edges(inbound).build().is_detached());
    let mut graph = two_nodes();
    assert!(graph.get_node(&1).unwrap().is_detached());
    graph.add_edge(Edge::new(text("e"), 1, 2)).unwrap();
    assert!(!graph.get_node(&1).unwrap().is_detached());
    assert!(!graph.get_node(&2).unwrap().is_detached());
    graph.remove_edge(&1, &2).unwrap();
    assert!(graph.get_node(&1).unwrap().is_detached());
    assert!(graph.get_node(&2).unwrap().is_detached());
}

#[test]
fn edge_keeps_what_it_is_given() {
    let edge = Edge::new(text("e"), 4, 9);
    assert_eq!(edge.get_data(), &Some(text("e")));
    assert_eq!(*edge.get_node_out(), 4);
    assert_eq!(*edge.get_node_in(), 9);
}

#[test]
fn edges_are_equal_by_their_ends_alone() {
    assert!(Edge::new(text("e"), 1, 2) == Edge::new(text("f"), 1, 2));
    assert!(Edge::new(text("e"), 1, 2) != Edge::new(text("e"), 2, 1));
    assert!(Edge::new(text("e"), 1, 2) != Edge::new(text("e"), 1, 3));
}

#[test]
fn add_edge_is_seen_from_both_ends() {
    let mut graph = two_nodes();
    graph.add_edge(Edge::new(text("e"), 1, 2)).unwrap();
    let source = graph.get_node(&1).unwrap();
    let target = graph.get_node(&2).unwrap();
    assert!(source.get_outbound().contains_key(&2));
    assert!(source.get_inbound().is_empty());
    assert!(target.get_inbound().contains(&1));
    assert!(target.get_outbound().is_empty());
    let edge = graph.get_edge(&1, &2).unwrap();
    assert_eq!(edge.get_data(), &Some(text("e")));
    assert_eq!(*edge.get_node_out(), 1);
    assert_eq!(*edge.get_node_in(), 2);
    assert!(graph.get_edge(&2, &1).is_none());
    assert!(graph.get_edge(&5, &1).is_none());
}

#[test]
fn second_add_edge_is_refused() {
    let mut graph = two_nodes();
    graph.add_edge(Edge::new(text("e"), 1, 2)).unwrap();
    let again = graph.add_edge(Edge::new(text("other"), 1, 2));
    assert!(matches!(again, Err(GraphError::EdgeExist())));
    assert_eq!(graph.get_edge(&1, &2).unwrap().get_data(), &Some(text("e")));
    assert_eq!(edge_pairs(&graph), vec![(1, 2)]);
}

#[test]
fn edge_in_the_other_direction_is_another_edge() {
    let mut graph = two_nodes();
    graph.add_edge(Edge::new(text("e"), 1, 2)).unwrap();
    graph.add_edge(Edge::new(text("f"), 2, 1)).unwrap();
    assert_eq!(edge_pairs(&graph), vec![(1, 2), (2, 1)]);
}

#[test]
fn add_edge_needs_both_nodes() {
    let mut graph = two_nodes();
    let no_target = graph.add_edge(Edge::new(text("e"), 1, 3));
    assert!(matches!(no_target, Err(GraphError::NodeNotExist())));
    let no_source = graph.add_edge(Edge::new(text("e"), 3, 1));
    assert!(matches!(no_source, Err(GraphError::NodeNotExist())));
    assert!(graph.get_edges().is_empty());
    assert!(graph.get_node(&1).unwrap().get_outbound().is_empty());
    assert!(graph.get_node(&1).unwrap().get_inbound().is_empty());
}

#[test]
fn contain_nodes_and_not_edge_says_why() {
    let mut graph = two_nodes();
    assert!(graph.contain_nodes_and_not_edge(&1, &2).is_ok());
    assert!(matches!(
        graph.contain_nodes_and_not_edge(&1, &3),
        Err(GraphError::NodeNotExist())
    ));
    assert!(matches!(
        graph.contain_nodes_and_not_edge(&3, &1),
        Err(GraphError::NodeNotExist())
    ));
    graph.add_edge(Edge::new(text("e"), 1, 2)).unwrap();
    assert!(matches!(graph.contain_nodes_and_not_edge(&1, &2), Err(GraphError::EdgeExist())));
    assert!(graph.contain_nodes_and_not_edge(&2, &1).is_ok());
}

#[test]
fn self_loop_is_an_edge() {
    let mut graph = two_nodes();
    graph.add_edge(Edge::new(text("loop"), 1, 1)).unwrap();
    let node = graph.get_node(&1).unwrap();
    assert!(node.get_outbound().contains_key(&1));
    assert!(node.get_inbound().contains(&1));
    graph.remove_edge(&1, &1).unwrap();
    let node = graph.get_node(&1).unwrap();
    assert!(node.get_outbound().is_empty());
    assert!(node.get_inbound().is_empty());
}

#[test]
fn remove_edge_takes_it_from_both_ends() {
    let mut graph = triangle();
    graph.remove_edge(&1, &2).unwrap();
    assert!(!graph.get_node(&1).unwrap().get_outbound().contains_key(&2));
    assert!(!graph.get_node(&2).unwrap().get_inbound().contains(&1));
    assert!(graph.get_node(&1).unwrap().get_inbound().contains(&2));
    assert!(graph.get_node(&2).unwrap().get_outbound().contains_key(&1));
    assert_eq!(edge_pairs(&graph), vec![(2, 1), (2, 3), (3, 1)]);
}

#[test]
fn remove_edge_that_is_not_there_is_refused() {
    let mut graph = two_nodes();
    let gone = graph.remove_edge(&1, &2);
    assert!(matches!(gone, Err(GraphError::EdgeNotExist())));
    assert_eq!(node_ids(&graph), vec![1, 2]);
    assert!(graph.get_edges().is_empty());
    assert_eq!(graph.get_node(&1).unwrap().get_data(), &Some(text("x")));
    assert_eq!(graph.get_node(&2).unwrap().get_data(), &Some(text("y")));
}

#[test]
fn remove_edge_against_its_direction_is_refused() {
    let mut graph = two_nodes();
    graph.add_edge(Edge::new(text("e"), 1, 2)).unwrap();
    assert!(matches!(graph.remove_edge(&2, &1), Err(GraphError::EdgeNotExist())));
    assert_eq!(edge_pairs(&graph), vec![(1, 2)]);
    assert!(graph.get_node(&2).unwrap().get_inbound().contains(&1));
}

#[test]
fn remove_edge_to_a_node_that_is_not_there_is_refused() {
    let mut graph = two_nodes();
    assert!(matches!(graph.remove_edge(&1, &9), Err(GraphError::EdgeNotExist())));
}

#[test]
fn remove_edge_from_a_node_that_is_not_there_is_refused() {
    let mut graph = two_nodes();
    assert!(matches!(graph.remove_edge(&9, &1), Err(GraphError::NodeNotExist())));
    assert_eq!(node_ids(&graph), vec![1, 2]);
}

#[test]
fn removed_edge_can_be_added_again() {
    let mut graph = two_nodes();
    graph.add_edge(Edge::new(text("e"), 1, 2)).unwrap();
    graph.remove_edge(&1, &2).unwrap();
    graph.add_edge(Edge::new(text("f"), 1, 2)).unwrap();
    assert_eq!(graph.get_edge(&1, &2).unwrap().get_data(), &Some(text("f")));
}

#[test]
fn remove_node_takes_its_edges_along() {
    let mut graph = triangle();
    graph.remove_node(&1).unwrap();
    assert!(graph.get_node(&1).is_none());
    assert_eq!(node_ids(&graph), vec![2, 3]);
    let two = graph.get_node(&2).unwrap();
    assert!(!two.get_outbound().contains_key(&1));
    assert!(!two.get_inbound().contains(&1));
    assert!(two.get_outbound().contains_key(&3));
    let three = graph.get_node(&3).unwrap();
    assert!(!three.get_outbound().contains_key(&1));
    assert!(!three.get_inbound().contains(&1));
    assert!(three.get_inbound().contains(&2));
    assert_eq!(edge_pairs(&graph), vec![(2, 3)]);
}

#[test]
fn remove_node_with_a_self_loop() {
    let mut graph = two_nodes();
    graph.add_edge(Edge::new(text("loop"), 1, 1)).unwrap();
    graph.add_edge(Edge::new(text("e"), 1, 2)).unwrap();
    graph.remove_node(&1).unwrap();
    assert_eq!(node_ids(&graph), vec![2]);
    assert!(graph.get_node(&2).unwrap().get_inbound().is_empty());
    assert!(graph.get_edges().is_empty());
}

#[test]
fn remove_node_that_is_not_there_is_refused() {
    let mut graph = triangle();
    assert!(matches!(graph.remove_node(&9), Err(GraphError::NodeNotExist())));
    assert_eq!(node_ids(&graph), vec![1, 2, 3]);
    assert_eq!(edge_pairs(&graph), vec![(1, 2), (2, 1), (2, 3), (3, 1)]);
}

#[test]
fn removed_node_can_be_added_again() {
    let mut graph = triangle();
    graph.remove_node(&2).unwrap();
    graph.add_node(2, NodeBuilder::new(2).data(text("z")).build()).unwrap();
    let two = graph.get_node(&2).unwrap();
    assert_eq!(two.get_data(), &Some(text("z")));
    assert!(two.get_outbound().is_empty());
    assert!(two.get_inbound().is_empty());
    assert_eq!(edge_pairs(&graph), vec![(3, 1)]);
}

#[test]
fn get_nodes_and_get_edges_list_each_once() {
    let graph = triangle();
    assert_eq!(node_ids(&graph), vec![1, 2, 3]);
    assert_eq!(graph.get_nodes().len(), 3);
    assert_eq!(edge_pairs(&graph), vec![(1, 2), (2, 1), (2, 3), (3, 1)]);
    assert_eq!(graph.get_edges().len(), 4);
    let mut keys = graph.node_keys();
    keys.sort();
    assert_eq!(keys, vec![1, 2, 3]);
}

#[test]
fn graph_of_numbers() {
    let mut graph = Graph::default();
    graph.add_node(1, NodeBuilder::new(1).data(text("1")).build()).expect("Error while add node");
    graph.add_node(2, NodeBuilder::new(2).data(text("2")).build()).expect("Error while add node");
    graph.add_edge(Edge::new(text("1"), 1, 2)).expect("Error while add edge");
    assert_eq!(graph.get_node(&1).expect("Error while get node").get_index(), &1);
    let edge = graph
        .get_node(&1)
        .expect("Error while get node")
        .get_outbound()
        .get(&2)
        .expect("Error while get edge");
    assert_eq!(edge.get_node_out(), &1);
    graph.remove_node(&1).expect("Error remove node");
    assert!(graph.get_node(&1).is_none());
    assert!(graph.get_node(&2).expect("Error get node").get_inbound().get(&1).is_none());
}

#[test]
fn every_error_has_its_sentence() {
    assert_eq!(
        GraphError::OccupiedError().message(),
        "Node with the current index already exists"
    );
    assert_eq!(
        GraphError::NodeNotExist().message(),
        "Node with the current index does not exist"
    );
    assert_eq!(GraphError::EdgeExist().message(), "Same edge already exists");
    assert_eq!(GraphError::EdgeNotExist().message(), "Edge between such nodes does not exist");
    assert_eq!(GraphError::NotEqualIndexes().message(), "Not equal indexes");
    assert_eq!(GraphError::ParseStrError().message(), "Error while parsing from str");
    assert_eq!(
        GraphError::DftError(text("disk full")).message(),
        "Serialization error: disk full"
    );
}

use graph_lib::dir_graph::edge::Edge;
use graph_lib::dir_graph::graph::Graph;
use graph_lib::dir_graph::node::NodeBuilder;

fn graph_of(nodes: &[u64], edges: &[(u64, u64)]) -> Graph {
    let mut graph = Graph::new();
    for k in nodes {
        graph.add_node(*k, NodeBuilder::new(*k).data(format!("n{}", k)).build()).unwrap();
    }
    for (a, b) in edges {
        graph.add_edge(Edge::new(format!("e{}{}", a, b), *a, *b)).unwrap();
    }
    graph
}

fn sorted(mut v: Vec<u64>) -> Vec<u64> {
    v.sort();
    v
}

#[test]
fn walk_from_an_isolated_node_visits_it_alone() {
    let graph = graph_of(&[1, 2, 3], &[(2, 3)]);
    assert_eq!(graph.dfs(&1), vec![1]);
}

#[test]
fn walk_from_a_node_with_entering_edges_only_visits_it_alone() {
    let graph = graph_of(&[1, 2, 3], &[(1, 3), (2, 3)]);
    assert_eq!(graph.dfs(&3), vec![3]);
}

#[test]
fn walk_round_a_cycle_visits_each_node_once() {
    let graph = graph_of(&[1, 2], &[(1, 2), (2, 1)]);
    assert_eq!(graph.dfs(&1), vec![1, 2]);
    assert_eq!(graph.dfs(&2), vec![2, 1]);
}

#[test]
fn walk_over_a_self_loop_ends() {
    let graph = graph_of(&[1], &[(1, 1)]);
    assert_eq!(graph.dfs(&1), vec![1]);
}

#[test]
fn walk_from_a_node_that_is_not_there_visits_nothing() {
    let graph = graph_of(&[1, 2], &[(1, 2)]);
    assert!(graph.dfs(&9).is_empty());
    assert!(Graph::new().dfs(&1).is_empty());
}

#[test]
fn walk_along_a_chain_goes_in_its_order() {
    let graph = graph_of(&[1, 2, 3, 4], &[(1, 2), (2, 3), (3, 4)]);
    assert_eq!(graph.dfs(&1), vec![1, 2, 3, 4]);
    assert_eq!(graph.dfs(&3), vec![3, 4]);
}

#[test]
fn walk_visits_what_is_reached_and_nothing_else() {
    let graph = graph_of(
        &[1, 2, 3, 4, 5, 6, 7],
        &[(1, 2), (1, 3), (2, 4), (3, 4), (4, 1), (5, 1), (6, 7), (7, 6)],
    );
    let order = graph.dfs(&1);
    assert_eq!(order[0], 1);
    assert_eq!(order.len(), 4);
    assert_eq!(sorted(order), vec![1, 2, 3, 4]);
    assert_eq!(sorted(graph.dfs(&5)), vec![1, 2, 3, 4, 5]);
    assert_eq!(sorted(graph.dfs(&6)), vec![6, 7]);
}

#[test]
fn walk_goes_deep_before_it_goes_wide() {
    let graph = graph_of(&[1, 2, 3, 4, 5], &[(1, 2), (1, 3), (2, 4), (3, 5)]);
    let order = graph.dfs(&1);
    assert!(order == vec![1, 2, 4, 3, 5] || order == vec![1, 3, 5, 2, 4]);
}

#[test]
fn each_node_after_the_first_is_entered_from_an_earlier_one() {
    let graph = graph_of(
        &[1, 2, 3, 4, 5, 6],
        &[(1, 2), (2, 3), (3, 1), (3, 4), (4, 5), (5, 6), (6, 4), (1, 6)],
    );
    let order = graph.dfs(&1);
    assert_eq!(sorted(order.clone()), vec![1, 2, 3, 4, 5, 6]);
    for i in 1..order.len() {
        assert!((0..i).any(|j| graph.get_edge(&order[j], &order[i]).is_some()));
    }
}

#[test]
fn report_describes_a_node() {
    let graph = graph_of(&[1, 2, 3], &[(1, 2), (3, 1)]);
    let lines = graph.get_node(&1).unwrap().report();
    assert_eq!(
        lines,
        vec![
            "Node: index: 1, data: n1".to_string(),
            "Adjacent inbound: 3,".to_string(),
            "Adjacent outbound: 2,".to_string(),
        ]
    );
    let mut bare = Graph::new();
    bare.add_node(4, NodeBuilder::new(4).build()).unwrap();
    assert_eq!(
        bare.get_node(&4).unwrap().report(),
        vec![
            "Node: index: 4, data: None".to_string(),
            "Adjacent inbound:".to_string(),
            "Adjacent outbound:".to_string(),
        ]
    );
}

#[test]
fn walk_is_described_node_by_node() {
    let graph = graph_of(&[1, 2, 3], &[(1, 2), (2, 1), (3, 1)]);
    let lines = graph.dfs_lines(&1);
    assert_eq!(lines.len(), 6);
    assert_eq!(lines[0], "Node: index: 1, data: n1");
    assert!(lines[1] == "Adjacent inbound: 2, 3," || lines[1] == "Adjacent inbound: 3, 2,");
    assert_eq!(lines[2], "Adjacent outbound: 2,");
    assert_eq!(lines[3], "Node: index: 2, data: n2");
    assert_eq!(lines[4], "Adjacent inbound: 1,");
    assert_eq!(lines[5], "Adjacent outbound: 1,");
    assert!(graph.dfs_lines(&9).is_empty());
}

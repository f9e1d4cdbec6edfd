use data_logger::flow::FlowGraph;
use data_logger::graph::{Edge, Graph};
use data_logger::node::{
    loop_time_of, product_of, ratio_of, rescaled_by, sum_of, Node, ONE, TOLERANCE,
};
use data_logger::paths::{
    exceeds_one_mass, is_one_mass, path_duration_of, path_mass, path_probability_of, paths_between,
};

#[test]
fn flow_graph_starts_empty() {
    let graph = FlowGraph::new();
    assert_eq!(graph.node_count(), 0);
    assert_eq!(graph.edge_count(), 0);
    assert!(graph.node_indices().is_empty());
    assert!(!graph.is_cyclic());
    assert_eq!(graph.node(0), None);
    assert_eq!(graph.edge(0, 0), None);
}

#[test]
fn flow_graph_holds_one_edge_for_each_pair() {
    let mut graph = FlowGraph::new();
    let a = graph.add_node(Node::N(1));
    let b = graph.add_node(Node::N(2));
    assert_ne!(a, b);
    graph.add_edge(a, b, 5);
    graph.add_edge(a, b, 9);
    graph.add_edge(b, a, 3);
    assert_eq!(graph.node_count(), 2);
    assert_eq!(graph.edge_count(), 2);
    assert_eq!(graph.edge(a, b), Some(9));
    assert_eq!(graph.edge(b, a), Some(3));
    assert_eq!(graph.edge(a, a), None);
    assert_eq!(graph.successors(a), vec![b]);
    assert_eq!(graph.node_indices(), vec![a, b]);
}

#[test]
fn flow_graph_removes_edges_and_nodes() {
    let mut graph = FlowGraph::new();
    let a = graph.add_node(Node::N(1));
    let b = graph.add_node(Node::N(2));
    let c = graph.add_node(Node::P(3));
    graph.add_edge(a, b, 5);
    graph.add_edge(b, c, 6);
    graph.add_edge(c, a, 7);
    graph.add_edge(a, c, 8);
    assert!(graph.is_cyclic());

    assert_eq!(graph.remove_edge(c, a), Some(7));
    assert_eq!(graph.remove_edge(c, a), None);
    assert!(!graph.is_cyclic());
    assert_eq!(graph.edge_count(), 3);

    assert_eq!(graph.remove_node(b), Some(Node::N(2)));
    assert_eq!(graph.remove_node(b), None);
    assert_eq!(graph.node(b), None);
    assert_eq!(graph.node_count(), 2);
    assert_eq!(graph.edge_count(), 1);
    assert_eq!(graph.edge(a, b), None);
    assert_eq!(graph.edge(b, c), None);
    assert_eq!(graph.edge(a, c), Some(8));
    assert_eq!(graph.node_indices(), vec![a, c]);
}

#[test]
fn flow_graph_replaces_a_node() {
    let mut graph = FlowGraph::new();
    let a = graph.add_node(Node::N(1));
    graph.set_node(a, Node::P(4));
    graph.set_node(a + 1, Node::P(5));
    assert_eq!(graph.node(a), Some(&Node::P(4)));
    assert_eq!(graph.node_count(), 1);
}

#[test]
fn flow_graph_sees_a_loop_as_a_cycle() {
    let mut graph = FlowGraph::new();
    let a = graph.add_node(Node::N(1));
    assert!(!graph.is_cyclic());
    graph.add_edge(a, a, ONE);
    assert!(graph.is_cyclic());
}

#[test]
fn simple_paths_respect_the_bounds() {
    let mut graph = FlowGraph::new();
    let a = graph.add_node(Node::N(1));
    let x = graph.add_node(Node::N(2));
    let y = graph.add_node(Node::N(3));
    let b = graph.add_node(Node::N(4));
    graph.add_edge(a, b, ONE);
    graph.add_edge(a, x, ONE);
    graph.add_edge(x, b, ONE);
    graph.add_edge(x, y, ONE);
    graph.add_edge(y, b, ONE);

    assert_eq!(graph.simple_paths(a, b, 0, 0), vec![vec![a, b]]);
    assert_eq!(graph.simple_paths(a, b, 1, 1), vec![vec![a, x, b]]);
    assert_eq!(graph.simple_paths(a, b, 2, 2), vec![vec![a, x, y, b]]);
    let mut all = graph.simple_paths(a, b, 0, 3);
    all.sort();
    assert_eq!(all, vec![vec![a, x, y, b], vec![a, x, b], vec![a, b]]);
    assert_eq!(paths_between(&graph, a, b, 3).len(), 2);
    assert!(graph.simple_paths(b, a, 0, 3).is_empty());
}

#[test]
fn path_measures() {
    let mut graph = FlowGraph::new();
    let a = graph.add_node(Node::N(100));
    let x = graph.add_node(Node::B(vec![(Node::N(40), 250_000_000), (Node::N(80), 750_000_000)]));
    let b = graph.add_node(Node::P(7));
    graph.add_edge(a, x, 500_000_000);
    graph.add_edge(x, b, 500_000_000);

    assert_eq!(path_probability_of(&graph, &vec![a, x, b]), 250_000_000);
    assert_eq!(path_probability_of(&graph, &vec![a]), ONE);
    assert_eq!(path_probability_of(&graph, &vec![a, b]), 0);
    assert_eq!(path_duration_of(&graph, &vec![a, x, b]), 100 + 70 + 7);
    assert_eq!(path_duration_of(&graph, &vec![a, 99]), 100);
    assert_eq!(
        path_mass(&graph, &vec![vec![a, x, b], vec![a, x], vec![a, b]]),
        750_000_000
    );
    assert_eq!(path_mass(&graph, &vec![]), 0);
}

#[test]
fn node_durations() {
    assert_eq!(Node::N(12).duration(), 12);
    assert_eq!(Node::P(13).duration(), 13);
    assert_eq!(Node::B(vec![]).duration(), 0);
    let nested = Node::B(vec![
        (Node::N(1000), 100_000_000),
        (
            Node::B(vec![(Node::N(10), 500_000_000), (Node::N(30), 500_000_000)]),
            900_000_000,
        ),
    ]);
    assert_eq!(nested.duration(), 100 + 18);
}

#[test]
fn fixed_point_arithmetic() {
    assert_eq!(ratio_of(7, 10), 700_000_000);
    assert_eq!(ratio_of(1, 3), 333_333_333);
    assert_eq!(ratio_of(5, 0), 0);
    assert_eq!(ratio_of(3, 2), 1_500_000_000);
    assert_eq!(ratio_of(u64::MAX, 1), u64::MAX);
    assert_eq!(product_of(700_000_000, 500_000_000), 350_000_000);
    assert_eq!(product_of(840, 300_000_000), 252);
    assert_eq!(product_of(u64::MAX, u64::MAX), u64::MAX);
    assert_eq!(rescaled_by(800_000_000, 200_000_000), ONE);
    assert_eq!(rescaled_by(400_000_000, 500_000_000), 800_000_000);
    assert_eq!(loop_time_of(520, 200_000_000), 130);
    assert_eq!(loop_time_of(u64::MAX, 999_999_999), u64::MAX);
    assert_eq!(sum_of(3, 4), 7);
    assert_eq!(sum_of(u64::MAX, 1), u64::MAX);
    assert!(is_one_mass(ONE));
    assert!(is_one_mass(ONE - TOLERANCE));
    assert!(is_one_mass(ONE + TOLERANCE));
    assert!(!is_one_mass(ONE - TOLERANCE - 1));
    assert!(!is_one_mass(ONE + TOLERANCE + 1));
    assert!(exceeds_one_mass(ONE + TOLERANCE + 1));
    assert!(!exceeds_one_mass(ONE + TOLERANCE));
}

#[test]
fn graph_adds_each_name_once() {
    let mut graph: Graph<u64, u64> = Graph::new();
    assert_eq!(graph.node_count(), 0);
    assert!(graph.add_node("a", 5));
    assert!(!graph.add_node("a", 6));
    assert!(graph.add_node("b", 7));
    assert_eq!(graph.node_count(), 2);
    assert_eq!(graph.find("a"), Some(0));
    assert_eq!(graph.find("b"), Some(1));
    assert_eq!(graph.find("c"), None);
    assert_eq!(graph.lookup(0), "a");
    assert_eq!(graph.lookup(1), "b");
    assert_eq!(*graph.value_at(0), 5);
    assert_eq!(*graph.get_node("a"), 5);
}

#[test]
fn graph_get_node_creates_and_updates() {
    let mut graph: Graph<u64, u64> = Graph::new();
    assert_eq!(*graph.get_node("x"), 0);
    *graph.get_node("x") += 4;
    *graph.get_node("y") = 9;
    *graph.get_node("x") += 1;
    assert_eq!(graph.node_count(), 2);
    assert_eq!(*graph.value_at(0), 5);
    assert_eq!(*graph.value_at(1), 9);
}

#[test]
fn graph_edges_are_keyed_by_target() {
    let mut graph: Graph<u64, u64> = Graph::new();
    graph.add_edge("a", "b", 3);
    graph.add_edge("a", "b", 4);
    graph.add_edge("b", "a", 5);
    graph.add_edge("a", "a", 6);
    assert_eq!(graph.node_count(), 2);
    assert_eq!(graph.edges("a").len(), 2);
    assert_eq!(graph.edges("b").len(), 1);
    let e: &Edge<u64> = &graph.edges("a")[&1];
    assert_eq!((e.from, e.to, e.data), (0, 1, 4));
    assert_eq!(graph.edges("b")[&0].data, 5);
    assert_eq!(graph.edges_at(0)[&0].data, 6);

    *graph.edge("a", "b") += 10;
    *graph.edge("b", "c") += 1;
    assert_eq!(graph.edges("a")[&1].data, 14);
    assert_eq!(graph.node_count(), 3);
    assert_eq!(graph.edges("b")[&2].data, 1);
    assert_eq!(graph.edges("b")[&2].from, 1);
    assert_eq!(graph.edges("b")[&2].to, 2);
    assert!(graph.edges("c").is_empty());

    graph.edges_mut("c").insert(0, Edge { from: 2, to: 0, data: 8 });
    assert_eq!(graph.edges("c")[&0].data, 8);
}

use data_logger::branch::{
    expand_into, group_paths, merge_paths, occurs, remove_interior, take_groups,
};
use data_logger::flatten::{
    apply_everywhere, apply_rule, eliminate_self_loop, estimate, flatten, has_branch, has_parallel,
    is_reduced, remove_branch, remove_branches, remove_parallel, remove_parallels,
    remove_self_loops, ReductionError, Rule,
};
use data_logger::parallel::{critical_path, keep_critical_path, remove_shortcuts};
use data_logger::flow::FlowGraph;
use data_logger::node::{ratio_of, Node, ONE};

#[test]
fn test_removing_branches() {
    let mut graph = FlowGraph::new();

    let f2 = graph.add_node(Node::N(320));
    let f3 = graph.add_node(Node::N(260));
    let f4 = graph.add_node(Node::N(840));
    let f6 = graph.add_node(Node::N(150));

    graph.add_edge(f2, f3, ratio_of(7, 10));
    graph.add_edge(f2, f4, ratio_of(3, 10));
    graph.add_edge(f3, f6, ONE);
    graph.add_edge(f4, f6, ONE);

    remove_branches(&mut graph);

    assert_eq!(graph.node_count(), 3);
    assert_eq!(graph.edge_count(), 2);

    for node in graph.node_indices() {
        if node != f2 && node != f6 {
            if let Some(Node::B(v)) = graph.node(node) {
                assert_eq!(v.len(), 2);
                assert_eq!(
                    v,
                    &[(Node::N(840), ratio_of(3, 10)), (Node::N(260), ratio_of(7, 10))]
                );
            }
        }
    }
}

#[test]
fn test_removing_self_loops() {
    let mut graph = FlowGraph::new();

    let a = graph.add_node(Node::N(520));
    let b = graph.add_node(Node::N(150));

    graph.add_edge(a, a, ratio_of(2, 10));
    graph.add_edge(a, b, ratio_of(8, 10));

    let _ = remove_self_loops(&mut graph);

    assert_eq!(graph.node(a), Some(&Node::N(650)));
}

fn diamond(left: u64, right: u64, p_left: u64, p_right: u64) -> (FlowGraph, u32, u32, u32, u32) {
    let mut graph = FlowGraph::new();
    let a = graph.add_node(Node::N(320));
    let c = graph.add_node(Node::N(left));
    let d = graph.add_node(Node::N(right));
    let b = graph.add_node(Node::N(150));
    graph.add_edge(a, c, p_left);
    graph.add_edge(a, d, p_right);
    graph.add_edge(c, b, ONE);
    graph.add_edge(d, b, ONE);
    (graph, a, c, d, b)
}

#[test]
fn self_loop_rescales_the_way_out() {
    let mut graph = FlowGraph::new();
    let a = graph.add_node(Node::N(520));
    let b = graph.add_node(Node::N(150));
    graph.add_edge(a, a, 200_000_000);
    graph.add_edge(a, b, 800_000_000);

    assert_eq!(remove_self_loops(&mut graph), Ok(true));

    assert_eq!(graph.edge(a, b), Some(ONE));
    assert_eq!(graph.edge(a, a), None);
    assert_eq!(graph.node(a), Some(&Node::N(650)));
    assert_eq!(graph.node(b), Some(&Node::N(150)));
    assert_eq!(graph.edge_count(), 1);
    assert_eq!(remove_self_loops(&mut graph), Ok(false));
}

#[test]
fn self_loop_at_one_node_only() {
    let mut graph = FlowGraph::new();
    let a = graph.add_node(Node::N(100));
    let b = graph.add_node(Node::N(40));
    graph.add_edge(a, b, ONE);
    graph.add_edge(b, b, 500_000_000);
    graph.add_edge(b, a, 250_000_000);

    assert_eq!(eliminate_self_loop(&mut graph, a), Ok(false));
    assert_eq!(eliminate_self_loop(&mut graph, b), Ok(true));

    assert_eq!(graph.edge(a, b), Some(ONE));
    assert_eq!(graph.edge(b, a), Some(500_000_000));
    assert_eq!(graph.node(b), Some(&Node::N(80)));
    assert_eq!(graph.node(a), Some(&Node::N(100)));
}

#[test]
fn self_loop_leaves_branch_nodes_alone() {
    let mut graph = FlowGraph::new();
    let a = graph.add_node(Node::B(vec![(Node::N(10), ONE)]));
    graph.add_edge(a, a, 500_000_000);
    assert_eq!(eliminate_self_loop(&mut graph, a), Ok(true));
    assert_eq!(graph.node(a), Some(&Node::B(vec![(Node::N(10), ONE)])));
    assert_eq!(graph.edge_count(), 0);
}

#[test]
fn degenerate_loop_is_reported() {
    let mut graph = FlowGraph::new();
    let a = graph.add_node(Node::N(520));
    let b = graph.add_node(Node::N(150));
    graph.add_edge(a, b, 300_000_000);
    graph.add_edge(b, b, ONE);

    assert_eq!(
        eliminate_self_loop(&mut graph, b),
        Err(ReductionError::DegenerateLoop { node: b })
    );
    assert_eq!(
        remove_self_loops(&mut graph),
        Err(ReductionError::DegenerateLoop { node: b })
    );
    assert_eq!(graph.edge(b, b), Some(ONE));
    assert_eq!(graph.edge(a, b), Some(300_000_000));
    assert_eq!(graph.node(b), Some(&Node::N(150)));
    assert_eq!(
        flatten(&mut graph, a, b),
        Err(ReductionError::DegenerateLoop { node: b })
    );
    assert_eq!(graph.edge(b, b), Some(ONE));
}

#[test]
fn degenerate_loop_stops_before_any_change() {
    let mut graph = FlowGraph::new();
    let a = graph.add_node(Node::N(10));
    let b = graph.add_node(Node::N(20));
    graph.add_edge(a, a, 500_000_000);
    graph.add_edge(a, b, 500_000_000);
    graph.add_edge(b, b, 1_500_000_000);
    assert_eq!(
        remove_self_loops(&mut graph),
        Err(ReductionError::DegenerateLoop { node: b })
    );
    assert_eq!(graph.edge(a, a), Some(500_000_000));
    assert_eq!(graph.edge(a, b), Some(500_000_000));
    assert_eq!(graph.node(a), Some(&Node::N(10)));
}

#[test]
fn exhaustive_branch_is_merged() {
    let (mut graph, a, c, d, b) = diamond(260, 840, 700_000_000, 300_000_000);

    assert!(has_branch(a, b, &graph, 1));
    assert!(!has_parallel(a, b, &graph, 1));
    assert!(!has_branch(a, a, &graph, 3));
    assert!(!has_branch(b, a, &graph, 3));
    let merged = remove_branch(a, b, &mut graph, 1);
    let m = merged.expect("the branch is exhaustive");

    assert_eq!(graph.node_count(), 3);
    assert_eq!(graph.edge_count(), 2);
    assert_eq!(graph.node(a), Some(&Node::N(320)));
    assert_eq!(graph.node(b), Some(&Node::N(150)));
    assert_eq!(
        graph.node(m),
        Some(&Node::B(vec![
            (Node::N(840), 300_000_000),
            (Node::N(260), 700_000_000)
        ]))
    );
    assert_eq!(graph.edge(a, m), Some(ONE));
    assert_eq!(graph.edge(m, b), Some(ONE));
    assert!(m == c || m == d || graph.node(c).is_none());
    assert!(graph.node(c).is_none() || m == c);
    assert!(graph.node(d).is_none() || m == d);
}

#[test]
fn partial_branch_stays() {
    let (mut graph, a, _c, _d, b) = diamond(260, 840, 600_000_000, 300_000_000);
    assert!(!has_branch(a, b, &graph, 1));
    assert_eq!(remove_branch(a, b, &mut graph, 1), None);
    assert_eq!(graph.node_count(), 4);
    assert_eq!(graph.edge_count(), 4);
    assert!(!remove_branches(&mut graph));
    assert_eq!(graph.node_count(), 4);
}

#[test]
fn branch_within_tolerance_is_merged() {
    let (graph, a, _c, _d, b) = diamond(260, 840, 333_333_333, 666_666_666);
    assert!(has_branch(a, b, &graph, 1));
    let (graph, a, _c, _d, b) = diamond(260, 840, 333_000_000, 666_000_000);
    assert!(!has_branch(a, b, &graph, 1));
}

#[test]
fn nested_branch_is_spliced() {
    let mut graph = FlowGraph::new();
    let a = graph.add_node(Node::N(1));
    let inner = graph.add_node(Node::B(vec![
        (Node::N(10), 250_000_000),
        (Node::N(20), 750_000_000),
    ]));
    let other = graph.add_node(Node::P(30));
    let b = graph.add_node(Node::N(2));
    graph.add_edge(a, inner, 400_000_000);
    graph.add_edge(a, other, 600_000_000);
    graph.add_edge(inner, b, ONE);
    graph.add_edge(other, b, ONE);

    let m = remove_branch(a, b, &mut graph, 1).expect("exhaustive");
    assert_eq!(
        graph.node(m),
        Some(&Node::B(vec![
            (Node::P(30), 600_000_000),
            (Node::N(10), 100_000_000),
            (Node::N(20), 300_000_000),
        ]))
    );
}

#[test]
fn paths_through_one_node_share_an_alternative() {
    let mut graph = FlowGraph::new();
    let a = graph.add_node(Node::N(1));
    let x = graph.add_node(Node::N(10));
    let y = graph.add_node(Node::N(20));
    let z = graph.add_node(Node::N(30));
    let b = graph.add_node(Node::N(2));
    graph.add_edge(a, x, ONE);
    graph.add_edge(x, y, 500_000_000);
    graph.add_edge(x, z, 500_000_000);
    graph.add_edge(y, b, ONE);
    graph.add_edge(z, b, ONE);

    assert!(!has_branch(a, b, &graph, 1));
    assert!(has_branch(a, b, &graph, 2));
    let m = remove_branch(a, b, &mut graph, 2).expect("exhaustive");
    assert_eq!(graph.node(m), Some(&Node::B(vec![(Node::N(10), ONE)])));
    assert_eq!(graph.node_count(), 3);
    assert_eq!(graph.edge_count(), 2);
}

#[test]
fn parallel_paths_keep_the_slowest() {
    let (mut graph, a, c, d, b) = diamond(260, 840, ONE, ONE);

    assert!(has_parallel(a, b, &graph, 1));
    assert!(!has_branch(a, b, &graph, 1));
    assert!(!has_parallel(a, a, &graph, 3));
    assert!(remove_parallel(a, b, &mut graph, 1));

    assert_eq!(graph.node_count(), 3);
    assert_eq!(graph.edge_count(), 2);
    assert_eq!(graph.node(c), None);
    assert_eq!(graph.node(d), Some(&Node::N(840)));
    assert_eq!(graph.edge(a, d), Some(ONE));
    assert_eq!(graph.edge(d, b), Some(ONE));
    assert!(!has_parallel(a, b, &graph, 1));
    assert!(!remove_parallel(a, b, &mut graph, 1));
}

#[test]
fn parallel_paths_of_equal_duration_keep_the_first_found() {
    let (mut graph, a, _c, _d, b) = diamond(500, 500, ONE, ONE);
    let first = graph.simple_paths(a, b, 1, 1)[0].clone();
    assert!(remove_parallels(&mut graph));
    assert_eq!(graph.node_count(), 3);
    assert_eq!(graph.simple_paths(a, b, 1, 3), vec![first]);
}

#[test]
fn parallel_resolution_drops_shortcuts() {
    let mut graph = FlowGraph::new();
    let a = graph.add_node(Node::N(1));
    let x = graph.add_node(Node::N(10));
    let y = graph.add_node(Node::N(20));
    let b = graph.add_node(Node::N(2));
    graph.add_edge(a, x, ONE);
    graph.add_edge(x, y, ONE);
    graph.add_edge(y, b, ONE);
    graph.add_edge(a, y, ONE);
    graph.add_edge(a, b, 100_000_000);

    assert!(remove_parallel(a, b, &mut graph, 2));
    assert_eq!(graph.node_count(), 4);
    assert_eq!(graph.edge(a, y), None);
    assert_eq!(graph.edge(a, b), Some(100_000_000));
    assert_eq!(graph.simple_paths(a, b, 1, 3), vec![vec![a, x, y, b]]);
}

#[test]
fn flatten_merges_a_diamond() {
    let (mut graph, a, _c, _d, b) = diamond(260, 840, 700_000_000, 300_000_000);
    assert!(!is_reduced(&graph, a, b));
    assert_eq!(estimate(&graph, a, b), None);

    assert_eq!(flatten(&mut graph, a, b), Ok(()));

    assert!(is_reduced(&graph, a, b));
    assert_eq!(graph.node_count(), 3);
    assert_eq!(graph.edge_count(), 2);
    assert_eq!(estimate(&graph, a, b), Some(320 + 252 + 182 + 150));
}

#[test]
fn flatten_folds_loops_first() {
    let mut graph = FlowGraph::new();
    let a = graph.add_node(Node::N(520));
    let b = graph.add_node(Node::N(150));
    graph.add_edge(a, a, 200_000_000);
    graph.add_edge(a, b, 800_000_000);
    assert_eq!(flatten(&mut graph, a, b), Ok(()));
    assert_eq!(graph.node(a), Some(&Node::N(650)));
    assert_eq!(graph.edge(a, b), Some(ONE));
    assert_eq!(estimate(&graph, a, b), Some(800));
}

#[test]
fn flatten_leaves_a_single_path_unchanged() {
    let mut graph = FlowGraph::new();
    let a = graph.add_node(Node::N(5));
    let m = graph.add_node(Node::B(vec![(Node::N(8), 500_000_000), (Node::N(4), 500_000_000)]));
    let b = graph.add_node(Node::N(7));
    graph.add_edge(a, m, ONE);
    graph.add_edge(m, b, ONE);

    assert_eq!(flatten(&mut graph, a, b), Ok(()));

    assert_eq!(graph.node_indices(), vec![a, m, b]);
    assert_eq!(graph.node(a), Some(&Node::N(5)));
    assert_eq!(
        graph.node(m),
        Some(&Node::B(vec![(Node::N(8), 500_000_000), (Node::N(4), 500_000_000)]))
    );
    assert_eq!(graph.node(b), Some(&Node::N(7)));
    assert_eq!(graph.edge(a, m), Some(ONE));
    assert_eq!(graph.edge(m, b), Some(ONE));
    assert_eq!(graph.edge_count(), 2);
    assert_eq!(estimate(&graph, a, b), Some(5 + 6 + 7));
    assert_eq!(flatten(&mut graph, a, b), Ok(()));
    assert_eq!(graph.edge_count(), 2);
}

#[test]
fn flatten_reports_a_missing_endpoint() {
    let mut graph = FlowGraph::new();
    let a = graph.add_node(Node::N(5));
    let b = graph.add_node(Node::N(7));
    graph.add_edge(a, b, ONE);
    assert_eq!(flatten(&mut graph, a, 77), Err(ReductionError::MissingEndpoint));
    assert_eq!(flatten(&mut graph, 78, b), Err(ReductionError::MissingEndpoint));
    assert_eq!(graph.edge(a, b), Some(ONE));
    assert_eq!(graph.node_count(), 2);
}

#[test]
fn flatten_reports_an_irreducible_cycle() {
    let mut graph = FlowGraph::new();
    let a = graph.add_node(Node::N(5));
    let b = graph.add_node(Node::N(7));
    graph.add_edge(a, b, ONE);
    graph.add_edge(b, a, ONE);
    assert_eq!(flatten(&mut graph, a, b), Err(ReductionError::Irreducible));
    assert_eq!(graph.edge(a, b), Some(ONE));
    assert_eq!(graph.edge(b, a), Some(ONE));
    assert!(!is_reduced(&graph, a, b));
}

#[test]
fn flatten_reports_unconnected_endpoints() {
    let mut graph = FlowGraph::new();
    let a = graph.add_node(Node::N(5));
    let b = graph.add_node(Node::N(7));
    assert_eq!(flatten(&mut graph, a, b), Err(ReductionError::Irreducible));
    assert_eq!(graph.node_count(), 2);
}

#[test]
fn scan_applies_a_rule_to_every_pair() {
    let (mut graph, a, _c, _d, b) = diamond(260, 840, 700_000_000, 300_000_000);
    assert!(!apply_rule(Rule::Parallels, a, b, &mut graph, 1));
    assert!(!apply_everywhere(Rule::Parallels, &mut graph));
    assert_eq!(graph.node_count(), 4);
    assert!(!apply_rule(Rule::Branches, b, a, &mut graph, 1));
    assert!(apply_everywhere(Rule::Branches, &mut graph));
    assert_eq!(graph.node_count(), 3);
    assert!(graph.node(a).is_some() && graph.node(b).is_some());

    let (mut graph, a, _c, _d, b) = diamond(260, 840, ONE, ONE);
    assert!(apply_rule(Rule::Parallels, a, b, &mut graph, 2));
    assert_eq!(graph.node_count(), 3);
}

#[test]
fn merging_listed_paths() {
    let (mut graph, a, c, d, b) = diamond(260, 840, 700_000_000, 300_000_000);
    let paths = vec![vec![a, c, b], vec![a, d, b]];
    assert_eq!(
        group_paths(&graph, &paths),
        vec![(c, 700_000_000), (d, 300_000_000)]
    );
    assert_eq!(
        group_paths(&graph, &vec![vec![a, c, b], vec![a, d, b], vec![a, c, b]]),
        vec![(c, 1_400_000_000), (d, 300_000_000)]
    );
    let m = merge_paths(&mut graph, a, b, &paths);
    assert_eq!(
        graph.node(m),
        Some(&Node::B(vec![
            (Node::N(260), 700_000_000),
            (Node::N(840), 300_000_000)
        ]))
    );
    assert_eq!(graph.node_indices().len(), 3);
    assert_eq!(graph.edge(a, m), Some(ONE));
    assert_eq!(graph.edge(m, b), Some(ONE));
    assert_eq!(graph.edge_count(), 2);
}

#[test]
fn taking_groups_out_of_a_graph() {
    let (mut graph, a, c, d, b) = diamond(260, 840, 700_000_000, 300_000_000);
    let taken = take_groups(&mut graph, &vec![(d, 5), (c, 6)]);
    assert_eq!(taken, vec![(Node::N(840), 5), (Node::N(260), 6)]);
    assert_eq!(graph.node_indices(), vec![a, b]);
    assert_eq!(graph.edge_count(), 0);

    let mut out = vec![(Node::P(1), 2)];
    expand_into(&mut out, Node::N(3), 4);
    expand_into(
        &mut out,
        Node::B(vec![(Node::N(5), 500_000_000), (Node::P(6), ONE)]),
        500_000_000,
    );
    expand_into(&mut out, Node::B(vec![]), ONE);
    assert_eq!(
        out,
        vec![
            (Node::P(1), 2),
            (Node::N(3), 4),
            (Node::N(5), 250_000_000),
            (Node::P(6), 500_000_000),
        ]
    );
}

#[test]
fn removing_what_lies_between() {
    let (mut graph, a, c, d, b) = diamond(260, 840, ONE, ONE);
    assert!(occurs(&vec![a, d, b], d));
    assert!(!occurs(&vec![a, d, b], c));
    remove_interior(&mut graph, &vec![vec![a, c, b], vec![a, d, b]], &vec![a, d, b]);
    assert_eq!(graph.node_indices(), vec![a, d, b]);
    assert_eq!(graph.edge_count(), 2);
    remove_interior(&mut graph, &vec![vec![a, d, b], vec![a], vec![]], &vec![]);
    assert_eq!(graph.node_indices(), vec![a, b]);
    assert_eq!(graph.edge_count(), 0);
}

#[test]
fn critical_path_is_the_first_of_greatest_duration() {
    let (mut graph, a, c, d, b) = diamond(840, 840, ONE, ONE);
    let paths = vec![vec![a, b], vec![a, c, b], vec![a, d, b]];
    assert_eq!(critical_path(&graph, &paths), 1);
    assert_eq!(critical_path(&graph, &vec![vec![a, d, b]]), 0);
    graph.add_edge(c, a, 5);
    graph.add_edge(a, b, 6);
    graph.add_edge(b, c, 7);
    remove_shortcuts(&mut graph, &vec![a, c, b]);
    assert_eq!(graph.edge(c, a), None);
    assert_eq!(graph.edge(b, c), None);
    assert_eq!(graph.edge(a, b), Some(6));
    assert_eq!(graph.edge(a, c), Some(ONE));
    assert_eq!(graph.edge(c, b), Some(ONE));
    assert_eq!(graph.edge(a, d), Some(ONE));
    assert_eq!(keep_critical_path(&mut graph, &vec![vec![a, d, b], vec![a, c, b]]), 0);
    assert_eq!(graph.node_indices(), vec![a, d, b]);
}

#[test]
fn copies_of_nodes_are_equal() {
    let node = Node::B(vec![
        (Node::N(1), 2),
        (Node::B(vec![(Node::P(3), 4)]), 5),
    ]);
    assert_eq!(node.clone(), node);
    assert_eq!(Node::N(9).clone(), Node::N(9));
}

use data_logger::call_graph::{
    bump, declare_transition, ensure_action, record_invocation, record_transition, snapshot,
    ActionInfo, CallGraph, EdgeInfo,
};
use data_logger::epoch_cache::{blend_sample, EpochCache, DEFAULT_EPOCH_LENGTH};
use data_logger::flatten::{estimate, flatten};
use data_logger::node::Node;

#[test]
fn estimate_is_zero_before_the_first_batch() {
    let mut cache = EpochCache::new();
    assert_eq!(cache.current(), 0);
    assert_eq!(cache.moving_average(), 0);
    for sample in 1..DEFAULT_EPOCH_LENGTH as u64 {
        cache.add(sample * 100);
        assert_eq!(cache.current(), 0);
    }
    assert_eq!(EpochCache::default().current(), 0);
}

#[test]
fn estimate_changes_on_batch_boundaries_only() {
    let mut cache = EpochCache::new();
    let mut seen = Vec::new();
    for k in 1..=35u64 {
        let before = cache.current();
        cache.add(k * 10);
        if cache.current() != before {
            seen.push(k);
        }
    }
    assert_eq!(seen, vec![10, 20, 30]);
}

#[test]
fn estimate_is_the_smoothed_batch() {
    let mut cache = EpochCache::new();
    for sample in [10u64, 20, 30, 40, 50, 60, 70, 80, 90] {
        cache.add(sample);
    }
    assert_eq!(cache.moving_average(), 80);
    cache.add(100);
    assert_eq!(cache.current(), 90);
    assert_eq!(cache.moving_average(), 0);
    for _ in 0..10 {
        cache.add(7);
    }
    assert_eq!(cache.current(), 7);
}

#[test]
fn estimate_lies_between_the_extremes_of_the_batch() {
    let mut cache = EpochCache::new();
    let batch = [900u64, 3, 17, 250, 4, 4000, 12, 600, 35, 81];
    for sample in batch {
        cache.add(sample);
    }
    assert!(cache.current() >= 3 && cache.current() <= 4000);
    assert_eq!(cache.current(), 253);
}

#[test]
fn estimate_survives_the_largest_samples() {
    let mut cache = EpochCache::new();
    for _ in 0..10 {
        cache.add(u64::MAX);
    }
    assert_eq!(cache.current(), u64::MAX);
    assert_eq!(blend_sample(u64::MAX, u64::MAX - 1), u64::MAX - 1);
    assert_eq!(blend_sample(3, 4), 3);
    assert_eq!(blend_sample(0, 1), 0);
}

#[test]
fn invocations_are_counted_and_smoothed() {
    let mut graph = CallGraph::new();
    for _ in 0..10 {
        record_invocation(&mut graph, "resize", 40);
    }
    record_invocation(&mut graph, "resize", 1_000);
    record_invocation(&mut graph, "store", 5);
    assert_eq!(graph.node_count(), 2);
    let resize: &ActionInfo = graph.value_at(0);
    assert_eq!(resize.action_name, "resize");
    assert_eq!(resize.invoke_count, 11);
    assert_eq!(resize.buffer.current(), 40);
    let store = graph.value_at(1);
    assert_eq!(store.action_name, "store");
    assert_eq!(store.invoke_count, 1);
    assert_eq!(store.buffer.current(), 0);
}

#[test]
fn transition_recorded_twice_counts_two() {
    let mut graph = CallGraph::new();
    record_transition(&mut graph, "a", "b");
    assert_eq!(graph.edges("a").len(), 1);
    assert_eq!(graph.edges("a")[&1].data.call_count, 1);
    record_transition(&mut graph, "a", "b");
    assert_eq!(graph.node_count(), 2);
    assert_eq!(graph.edges("a").len(), 1);
    assert!(graph.edges("b").is_empty());
    let edge = &graph.edges("a")[&1];
    assert_eq!((edge.from, edge.to, edge.data.call_count), (0, 1, 2));
    assert_eq!(graph.value_at(0).invoke_count, 0);
    assert_eq!(graph.value_at(0).action_name, "a");
}

#[test]
fn unknown_names_become_nodes() {
    let mut graph = CallGraph::new();
    assert_eq!(ensure_action(&mut graph, "x"), 0);
    assert_eq!(ensure_action(&mut graph, "y"), 1);
    assert_eq!(ensure_action(&mut graph, "x"), 0);
    record_transition(&mut graph, "z", "z");
    assert_eq!(graph.node_count(), 3);
    assert_eq!(graph.edges("z")[&2].data.call_count, 1);
    assert_eq!(graph.value_at(2).invoke_count, 0);
    assert_eq!(graph.value_at(2).buffer.current(), 0);
}

#[test]
fn declared_transitions_count_nothing() {
    let mut graph = CallGraph::new();
    declare_transition(&mut graph, "a", "b");
    assert_eq!(graph.edges("a")[&1].data.call_count, 0);
    record_transition(&mut graph, "a", "b");
    declare_transition(&mut graph, "a", "b");
    assert_eq!(graph.edges("a")[&1].data.call_count, 1);
    assert_eq!(graph.edges("a").len(), 1);
}

#[test]
fn counts_stop_at_the_largest_value() {
    assert_eq!(bump(0), 1);
    assert_eq!(bump(41), 42);
    assert_eq!(bump(usize::MAX), usize::MAX);
    assert_eq!(EdgeInfo::default().call_count, 0);
    assert_eq!(ActionInfo::default().invoke_count, 0);
    assert_eq!(ActionInfo::new("n").action_name, "n");
}

#[test]
fn snapshot_derives_probabilities() {
    let mut graph = CallGraph::new();
    for _ in 0..10 {
        record_invocation(&mut graph, "a", 320);
    }
    for _ in 0..7 {
        record_transition(&mut graph, "a", "c");
    }
    for _ in 0..3 {
        record_transition(&mut graph, "a", "d");
    }
    for _ in 0..10 {
        record_invocation(&mut graph, "c", 260);
        record_invocation(&mut graph, "d", 840);
        record_invocation(&mut graph, "b", 150);
        record_transition(&mut graph, "c", "b");
        record_transition(&mut graph, "d", "b");
    }
    record_transition(&mut graph, "idle", "a");

    let (mut flow, ids) = snapshot(&graph).expect("a small graph has a snapshot");
    assert_eq!(ids.len(), 5);
    let (a, c, d, b, idle) = (ids[0], ids[1], ids[2], ids[3], ids[4]);
    assert_eq!(flow.node_count(), 5);
    assert_eq!(flow.edge_count(), 5);
    assert_eq!(flow.node(a), Some(&Node::N(320)));
    assert_eq!(flow.node(c), Some(&Node::N(260)));
    assert_eq!(flow.node(d), Some(&Node::N(840)));
    assert_eq!(flow.node(b), Some(&Node::N(150)));
    assert_eq!(flow.node(idle), Some(&Node::N(0)));
    assert_eq!(flow.edge(a, c), Some(700_000_000));
    assert_eq!(flow.edge(a, d), Some(300_000_000));
    assert_eq!(flow.edge(c, b), Some(1_000_000_000));
    assert_eq!(flow.edge(d, b), Some(1_000_000_000));
    assert_eq!(flow.edge(idle, a), Some(0));
    assert_eq!(flow.edge(b, a), None);

    assert_eq!(graph.value_at(0).invoke_count, 10);
    assert_eq!(flatten(&mut flow, a, b), Ok(()));
    assert_eq!(estimate(&flow, a, b), Some(320 + 182 + 252 + 150));
    assert_eq!(graph.edges("a").len(), 2);
}

#[test]
fn snapshot_of_nothing_is_empty() {
    let graph = CallGraph::new();
    let (flow, ids) = snapshot(&graph).expect("the empty graph has a snapshot");
    assert!(ids.is_empty());
    assert_eq!(flow.node_count(), 0);
    assert_eq!(flow.edge_count(), 0);
}

//! Reduction of a probabilistic call graph: loops at a node are folded into
//! the node, exhaustive alternatives between two nodes are merged into one
//! branch node, and of concurrent paths only the slowest stays.

use crate::branch::{interior, merge_paths, merged_edges, merged_nodes, nodes_outside};
use crate::flow::{FlowGraph, FlowView};
use crate::node::{
    exceeds_one, is_one, loop_time, loop_time_of, rescaled, rescaled_by, sum, sum_of, Node,
    NodeView, ONE,
};
use crate::parallel::{keep_critical_path, resolved_edges, resolved_nodes};
use crate::paths::{
    enumerates, exceeds_one_mass, is_one_mass, lemma_mass_of_enumerations, mass, path_duration,
    path_duration_of, path_mass, paths_between, routes,
};
use crate::store::{has_cycle, is_route};
use vstd::prelude::*;

verus! {

/// Why a graph could not be reduced.
#[derive(Debug, PartialEq, Eq, Clone, Copy)]
pub enum ReductionError {
    /// The node calls itself with probability one or more: the loop never ends.
    DegenerateLoop { node: u32 },
    /// No rule applies any more, and the graph is not a single path.
    Irreducible,
    /// The entry or the end point is not a node of the graph.
    MissingEndpoint,
}

/// A node after its loop of probability `p` was folded into it: an action
/// takes the expected time of its repetitions longer, other nodes stay.
pub open spec fn stretched(node: NodeView, p: u64) -> NodeView {
    match node {
        NodeView::N(w) => NodeView::N(sum(w, loop_time(w, p))),
        other => other,
    }
}

/// The edges after the loop at `n` was folded: the loop is gone and every
/// other edge that leaves `n` is divided by the mass that left the loop.
pub open spec fn edges_without_loop(edges: Map<(u32, u32), u64>, n: u32) -> Map<(u32, u32), u64> {
    Map::new(
        |k: (u32, u32)| edges.contains_key(k) && k != (n, n),
        |k: (u32, u32)|
            if k.0 == n {
                rescaled(edges[k], edges[(n, n)])
            } else {
                edges[k]
            },
    )
}

/// Whether `n` has a loop that never ends.
pub open spec fn degenerate_at(edges: Map<(u32, u32), u64>, n: u32) -> bool {
    edges.contains_key((n, n)) && edges[(n, n)] >= ONE
}

/// The edges after the loops at the nodes in `done` were folded.
pub open spec fn edges_without_loops(edges: Map<(u32, u32), u64>, done: Set<u32>) -> Map<
    (u32, u32),
    u64,
> {
    Map::new(
        |k: (u32, u32)| edges.contains_key(k) && !(k.0 == k.1 && done.contains(k.0)),
        |k: (u32, u32)|
            if done.contains(k.0) && edges.contains_key((k.0, k.0)) {
                rescaled(edges[k], edges[(k.0, k.0)])
            } else {
                edges[k]
            },
    )
}

/// The nodes after the loops at the nodes in `done` were folded.
pub open spec fn nodes_without_loops(
    nodes: Map<u32, NodeView>,
    edges: Map<(u32, u32), u64>,
    done: Set<u32>,
) -> Map<u32, NodeView> {
    Map::new(
        |n: u32| nodes.contains_key(n),
        |n: u32|
            if done.contains(n) && edges.contains_key((n, n)) {
                stretched(nodes[n], edges[(n, n)])
            } else {
                nodes[n]
            },
    )
}

/// Folds the loop at node `n` into the node. Returns whether there was one.
/// A loop of probability one or more is reported and left in place.
pub fn eliminate_self_loop(graph: &mut FlowGraph, n: u32) -> (r: Result<bool, ReductionError>)
    requires
        old(graph).wf(),
    ensures
        final(graph).wf(),
        match r {
            Ok(changed) => {
                &&& changed == old(graph).edges().contains_key((n, n))
                &&& !degenerate_at(old(graph).edges(), n)
                &&& changed ==> final(graph).edges() == edges_without_loop(old(graph).edges(), n)
                &&& changed ==> final(graph).nodes() == old(graph).nodes().insert(
                    n,
                    stretched(old(graph).nodes()[n], old(graph).edges()[(n, n)]),
                )
                &&& !changed ==> final(graph).edges() == old(graph).edges()
                &&& !changed ==> final(graph).nodes() == old(graph).nodes()
            },
            Err(e) => {
                &&& e == (ReductionError::DegenerateLoop { node: n })
                &&& degenerate_at(old(graph).edges(), n)
                &&& final(graph).edges() == old(graph).edges()
                &&& final(graph).nodes() == old(graph).nodes()
            },
        },
{
    let p = match graph.edge(n, n) {
        None => {
            return Ok(false);
        },
        Some(p) => p,
    };
    if p >= ONE {
        return Err(ReductionError::DegenerateLoop { node: n });
    }
    proof {
        graph.lemma_wf();
    }
    graph.remove_edge(n, n);
    let targets = graph.successors(n);
    let ghost base = graph.edges();
    let mut i: usize = 0;
    while i < targets.len()
        invariant
            0 <= i <= targets.len(),
            p < ONE,
            graph.wf(),
            graph.nodes() == old(graph).nodes(),
            base == old(graph).edges().remove((n, n)),
            targets@.no_duplicates(),
            forall|b: u32| targets@.contains(b) <==> base.contains_key((n, b)),
            graph.edges() =~= Map::new(
                |k: (u32, u32)| base.contains_key(k),
                |k: (u32, u32)|
                    if k.0 == n && targets@.take(i as int).contains(k.1) {
                        rescaled(base[k], p)
                    } else {
                        base[k]
                    },
            ),
        decreases targets.len() - i,
    {
        let b = targets[i];
        let ghost before = graph.edges();
        proof {
            graph.lemma_wf();
            assert(targets@.contains(b));
            assert(base.contains_key((n, b)));
            assert(!targets@.take(i as int).contains(b)) by {
                if targets@.take(i as int).contains(b) {
                    let j = choose|j: int| 0 <= j < i && targets@.take(i as int)[j] == b;
                    assert(targets@[j] == targets@[i as int]);
                }
            }
        }
        let w = match graph.edge(n, b) {
            Some(w) => w,
            None => 0,
        };
        graph.add_edge(n, b, rescaled_by(w, p));
        proof {
            let grown = targets@.take(i + 1);
            assert forall|c: u32| grown.contains(c) <==> (targets@.take(i as int).contains(c) || c
                == b) by {
                if grown.contains(c) {
                    let j = choose|j: int| 0 <= j < i + 1 && grown[j] == c;
                    if j < i {
                        assert(targets@.take(i as int)[j] == c);
                    }
                }
                if targets@.take(i as int).contains(c) {
                    let j = choose|j: int| 0 <= j < i && targets@.take(i as int)[j] == c;
                    assert(grown[j] == c);
                }
                if c == b {
                    assert(grown[i as int] == b);
                }
            }
        }
        i += 1;
    }
    let heavier = match graph.node(n) {
        Some(Node::N(w)) => Some(sum_of(*w, loop_time_of(*w, p))),
        _ => None,
    };
    proof {
        assert(targets@.take(i as int) =~= targets@);
        assert(graph.edges() =~= edges_without_loop(old(graph).edges(), n));
    }
    match heavier {
        Some(w) => {
            graph.set_node(n, Node::N(w));
        },
        None => {
            assert(old(graph).nodes().insert(
                n,
                stretched(old(graph).nodes()[n], old(graph).edges()[(n, n)]),
            ) =~= old(graph).nodes());
        },
    }
    Ok(true)
}

/// The set of the first `i` entries of `list`.
pub open spec fn prefix_set(list: Seq<u32>, i: int) -> Set<u32> {
    Set::new(|n: u32| list.take(i).contains(n))
}

/// One more entry adds itself to the set of the entries before it.
proof fn lemma_prefix_set_step(list: Seq<u32>, i: int)
    requires
        0 <= i < list.len(),
    ensures
        prefix_set(list, i + 1) =~= prefix_set(list, i).insert(list[i]),
{
    let grown = list.take(i + 1);
    assert forall|c: u32| grown.contains(c) <==> (list.take(i).contains(c) || c == list[i]) by {
        if grown.contains(c) {
            let j = choose|j: int| 0 <= j < i + 1 && grown[j] == c;
            if j < i {
                assert(list.take(i)[j] == c);
            }
        }
        if list.take(i).contains(c) {
            let j = choose|j: int| 0 <= j < i && list.take(i)[j] == c;
            assert(grown[j] == c);
        }
        if c == list[i] {
            assert(grown[i] == c);
        }
    }
}

/// Folds every loop of the graph into its node: the loop rule of the
/// reduction.
/// Returns whether there was a loop. Where some loop never ends, the node
/// with the smallest index that has such a loop is reported and the graph
/// stays as it was.
pub fn remove_self_loops(graph: &mut FlowGraph) -> (r: Result<bool, ReductionError>)
    requires
        old(graph).wf(),
    ensures
        final(graph).wf(),
        match r {
            Ok(changed) => {
                &&& forall|n: u32| !degenerate_at(old(graph).edges(), n)
                &&& changed == (exists|n: u32| old(graph).edges().contains_key((n, n)))
                &&& final(graph).edges() == edges_without_loops(old(graph).edges(), Set::full())
                &&& final(graph).nodes() == nodes_without_loops(
                    old(graph).nodes(),
                    old(graph).edges(),
                    Set::full(),
                )
            },
            Err(e) => {
                &&& e is DegenerateLoop
                &&& degenerate_at(old(graph).edges(), e->node)
                &&& forall|n: u32| n < e->node ==> !degenerate_at(old(graph).edges(), n)
                &&& final(graph).edges() == old(graph).edges()
                &&& final(graph).nodes() == old(graph).nodes()
            },
            },
{
    let indices = graph.node_indices();
    proof {
        graph.lemma_wf();
    }
    let mut i: usize = 0;
    while i < indices.len()
        invariant
            0 <= i <= indices.len(),
            graph.wf(),
            graph.edges() == old(graph).edges(),
            graph.nodes() == old(graph).nodes(),
            forall|a: int, b: int| 0 <= a < b < indices@.len() ==> indices@[a] < indices@[b],
            forall|n: u32| indices@.contains(n) <==> graph.nodes().contains_key(n),
            forall|k: int| 0 <= k < i ==> !degenerate_at(graph.edges(), #[trigger] indices@[k]),
        decreases indices.len() - i,
    {
        let n = indices[i];
        match graph.edge(n, n) {
            Some(p) => {
                if p >= ONE {
                    proof {
                        assert forall|m: u32| m < n implies !degenerate_at(graph.edges(), m) by {
                            if degenerate_at(graph.edges(), m) {
                                graph.lemma_wf();
                                assert(indices@.contains(m));
                                let k = choose|k: int| 0 <= k < indices@.len() && indices@[k] == m;
                                assert(k < i);
                            }
                        }
                    }
                    return Err(ReductionError::DegenerateLoop { node: n });
                }
            },
            None => {},
        }
        i += 1;
    }
    proof {
        assert forall|m: u32| !degenerate_at(graph.edges(), m) by {
            if degenerate_at(graph.edges(), m) {
                graph.lemma_wf();
                assert(indices@.contains(m));
            }
        }
    }
    let mut changed = false;
    let mut j: usize = 0;
    proof {
        assert(indices@.take(0) =~= Seq::<u32>::empty());
        assert(graph.edges() =~= edges_without_loops(old(graph).edges(), prefix_set(indices@, 0)));
        assert(graph.nodes() =~= nodes_without_loops(
            old(graph).nodes(),
            old(graph).edges(),
            prefix_set(indices@, 0),
        ));
    }
    while j < indices.len()
        invariant
            0 <= j <= indices.len(),
            graph.wf(),
            old(graph).wf(),
            forall|a: int, b: int| 0 <= a < b < indices@.len() ==> indices@[a] < indices@[b],
            forall|n: u32| indices@.contains(n) <==> old(graph).nodes().contains_key(n),
            forall|m: u32| !degenerate_at(old(graph).edges(), m),
            changed == (exists|k: int|
                0 <= k < j && old(graph).edges().contains_key((#[trigger] indices@[k], indices@[k]))),
            graph.edges() == edges_without_loops(old(graph).edges(), prefix_set(indices@, j as int)),
            graph.nodes() == nodes_without_loops(
                old(graph).nodes(),
                old(graph).edges(),
                prefix_set(indices@, j as int),
            ),
        decreases indices.len() - j,
    {
        let n = indices[j];
        let ghost done = prefix_set(indices@, j as int);
        let ghost before_edges = graph.edges();
        let ghost before_nodes = graph.nodes();
        proof {
            lemma_prefix_set_step(indices@, j as int);
            assert(!done.contains(n)) by {
                if indices@.take(j as int).contains(n) {
                    let k = choose|k: int| 0 <= k < j && indices@.take(j as int)[k] == n;
                    assert(indices@[k] < indices@[j as int]);
                }
            }
            assert(indices@.contains(n));
        }
        let step = eliminate_self_loop(graph, n);
        match step {
            Ok(found) => {
                proof {
                    let grown = done.insert(n);
                    if found {
                        assert(graph.edges() =~= edges_without_loops(old(graph).edges(), grown));
                        assert(graph.nodes() =~= nodes_without_loops(
                            old(graph).nodes(),
                            old(graph).edges(),
                            grown,
                        ));
                    } else {
                        assert(graph.edges() =~= edges_without_loops(old(graph).edges(), grown));
                        assert(graph.nodes() =~= nodes_without_loops(
                            old(graph).nodes(),
                            old(graph).edges(),
                            grown,
                        ));
                    }
                }
                if found {
                    changed = true;
                }
            },
            Err(_) => {
                proof {
                    assert(degenerate_at(old(graph).edges(), n));
                }
            },
        }
        j += 1;
    }
    proof {
        old(graph).lemma_wf();
        assert(indices@.take(j as int) =~= indices@);
        let done = prefix_set(indices@, j as int);
        assert(edges_without_loops(old(graph).edges(), done) =~= edges_without_loops(
            old(graph).edges(),
            Set::full(),
        ));
        assert(nodes_without_loops(old(graph).nodes(), old(graph).edges(), done)
            =~= nodes_without_loops(old(graph).nodes(), old(graph).edges(), Set::full()));
        if exists|n: u32| old(graph).edges().contains_key((n, n)) {
            let n = choose|n: u32| old(graph).edges().contains_key((n, n));
            assert(indices@.contains(n));
            let k = choose|k: int| 0 <= k < indices@.len() && indices@[k] == n;
            assert(old(graph).edges().contains_key((indices@[k], indices@[k])));
        }
    }
    Ok(changed)
}

/// Whether the listed paths from `from` to `to` are exhaustive alternatives:
/// the two nodes differ and the probabilities of the paths add up to one.
pub open spec fn is_branch(edges: Map<(u32, u32), u64>, from: u32, to: u32, paths: Seq<Seq<u32>>) -> bool {
    from != to && is_one(mass(edges, paths))
}

/// Whether the paths from `from` to `to` through at least one and at most
/// `max` other nodes are exhaustive alternatives.
pub open spec fn branch_between(graph: FlowView, from: u32, to: u32, max: nat) -> bool {
    exists|paths: Seq<Seq<u32>>| #[trigger]
        enumerates(graph.edges.dom(), from, to, 1, max, paths) && is_branch(
            graph.edges,
            from,
            to,
            paths,
        )
}

/// Whether the paths between two nodes are exhaustive alternatives can be
/// told from any list of them.
pub proof fn lemma_branch_between(graph: FlowView, from: u32, to: u32, max: nat, paths: Seq<Seq<u32>>)
    requires
        enumerates(graph.edges.dom(), from, to, 1, max, paths),
    ensures
        branch_between(graph, from, to, max) == is_branch(graph.edges, from, to, paths),
{
    if branch_between(graph, from, to, max) {
        let other = choose|other: Seq<Seq<u32>>| #[trigger]
            enumerates(graph.edges.dom(), from, to, 1, max, other) && is_branch(
                graph.edges,
                from,
                to,
                other,
            );
        lemma_mass_of_enumerations(graph.edges, graph.edges.dom(), from, to, 1, max, paths, other);
    }
}

/// Whether the paths from `from_node` to `to_node` through at least one and
/// at most `max_length` other nodes are exhaustive alternatives.
pub fn has_branch(from_node: u32, to_node: u32, graph: &FlowGraph, max_length: usize) -> (r: bool)
    requires
        graph.wf(),
        max_length < usize::MAX,
    ensures
        r == branch_between(graph@, from_node, to_node, max_length as nat),
{
    let paths = paths_between(graph, from_node, to_node, max_length);
    let total = path_mass(graph, &paths);
    proof {
        lemma_branch_between(graph@, from_node, to_node, max_length as nat, routes(paths@));
    }
    from_node != to_node && is_one_mass(total)
}

/// The graph `after` is `before` with the listed paths from `from` to `to`
/// merged into the branch node `b`.
pub open spec fn merges(
    before: FlowView,
    after: FlowView,
    from: u32,
    to: u32,
    paths: Seq<Seq<u32>>,
    b: u32,
) -> bool {
    &&& !nodes_outside(before.nodes, interior(paths)).contains_key(b)
    &&& after.nodes == merged_nodes(before.nodes, before.edges, paths, b)
    &&& after.edges == merged_edges(before.edges, paths, from, to, b)
}

/// Merges the paths from `from_node` to `to_node` through at least one and at
/// most `max_length` other nodes into one branch node, if they are exhaustive
/// alternatives (the branch rule of the reduction, for one pair of nodes). Returns
/// the index of the branch node, or `None` where the graph stays as it was.
pub fn remove_branch(from_node: u32, to_node: u32, graph: &mut FlowGraph, max_length: usize) -> (r:
    Option<u32>)
    requires
        old(graph).wf(),
        max_length < usize::MAX,
    ensures
        final(graph).wf(),
        r is Some <==> branch_between(old(graph)@, from_node, to_node, max_length as nat),
        exists|paths: Seq<Seq<u32>>|
            enumerates(old(graph).edges().dom(), from_node, to_node, 1, max_length as nat, paths)
                && match r {
                Some(b) => is_branch(old(graph).edges(), from_node, to_node, paths) && merges(
                    old(graph)@,
                    final(graph)@,
                    from_node,
                    to_node,
                    paths,
                    b,
                ),
                None => !is_branch(old(graph).edges(), from_node, to_node, paths) && final(graph)@
                    == old(graph)@,
            },
{
    let paths = paths_between(graph, from_node, to_node, max_length);
    let total = path_mass(graph, &paths);
    let ghost listed = routes(paths@);
    proof {
        lemma_branch_between(graph@, from_node, to_node, max_length as nat, listed);
    }
    if from_node != to_node && is_one_mass(total) {
        proof {
            assert(listed.len() > 0) by {
                if listed.len() == 0 {
                    assert(mass(graph.edges(), listed) == 0);
                }
            }
            assert forall|k: int| 0 <= k < listed.len() implies is_route(
                graph.edges().dom(),
                from_node,
                to_node,
                1,
                ((#[trigger] listed[k]).len() - 2) as nat,
                listed[k],
            ) by {
                assert(is_route(
                    graph.edges().dom(),
                    from_node,
                    to_node,
                    1,
                    max_length as nat,
                    listed[k],
                ));
            }
        }
        let b = merge_paths(graph, from_node, to_node, &paths);
        proof {
            assert(enumerates(
                old(graph).edges().dom(),
                from_node,
                to_node,
                1,
                max_length as nat,
                listed,
            ) && is_branch(old(graph).edges(), from_node, to_node, listed) && merges(
                old(graph)@,
                graph@,
                from_node,
                to_node,
                listed,
                b,
            ));
        }
        Some(b)
    } else {
        proof {
            assert(enumerates(
                old(graph).edges().dom(),
                from_node,
                to_node,
                1,
                max_length as nat,
                listed,
            ) && !is_branch(old(graph).edges(), from_node, to_node, listed) && graph@ == old(graph)@);
        }
        None
    }
}

/// Whether the listed paths from `from` to `to` run concurrently: the two
/// nodes differ and the probabilities of the paths add up to more than one.
pub open spec fn is_parallel(edges: Map<(u32, u32), u64>, from: u32, to: u32, paths: Seq<Seq<u32>>) -> bool {
    from != to && exceeds_one(mass(edges, paths))
}

/// Whether the paths from `from` to `to` through at least one and at most
/// `max` other nodes run concurrently.
pub open spec fn parallel_between(graph: FlowView, from: u32, to: u32, max: nat) -> bool {
    exists|paths: Seq<Seq<u32>>| #[trigger]
        enumerates(graph.edges.dom(), from, to, 1, max, paths) && is_parallel(
            graph.edges,
            from,
            to,
            paths,
        )
}

/// Whether the paths between two nodes run concurrently can be told from any
/// list of them.
pub proof fn lemma_parallel_between(graph: FlowView, from: u32, to: u32, max: nat, paths: Seq<Seq<u32>>)
    requires
        enumerates(graph.edges.dom(), from, to, 1, max, paths),
    ensures
        parallel_between(graph, from, to, max) == is_parallel(graph.edges, from, to, paths),
{
    if parallel_between(graph, from, to, max) {
        let other = choose|other: Seq<Seq<u32>>| #[trigger]
            enumerates(graph.edges.dom(), from, to, 1, max, other) && is_parallel(
                graph.edges,
                from,
                to,
                other,
            );
        lemma_mass_of_enumerations(graph.edges, graph.edges.dom(), from, to, 1, max, paths, other);
    }
}

/// Whether the paths from `from_node` to `to_node` through at least one and
/// at most `max_length` other nodes run concurrently.
pub fn has_parallel(from_node: u32, to_node: u32, graph: &FlowGraph, max_length: usize) -> (r: bool)
    requires
        graph.wf(),
        max_length < usize::MAX,
    ensures
        r == parallel_between(graph@, from_node, to_node, max_length as nat),
{
    let paths = paths_between(graph, from_node, to_node, max_length);
    let total = path_mass(graph, &paths);
    proof {
        lemma_parallel_between(graph@, from_node, to_node, max_length as nat, routes(paths@));
    }
    from_node != to_node && exceeds_one_mass(total)
}

/// The graph `after` is `before` with only the critical path of the listed
/// paths kept.
pub open spec fn resolves(before: FlowView, after: FlowView, paths: Seq<Seq<u32>>) -> bool {
    &&& after.nodes == resolved_nodes(before.nodes, paths)
    &&& after.edges == resolved_edges(before.nodes, before.edges, paths)
}

/// Keeps, of the paths from `from_node` to `to_node` through at least one and
/// at most `max_length` other nodes, only the one of greatest duration, if
/// they run concurrently (the parallel rule of the reduction, for one pair of
/// nodes). Returns whether the rule applied; where it did not, the graph
/// stays as it was.
pub fn remove_parallel(from_node: u32, to_node: u32, graph: &mut FlowGraph, max_length: usize) -> (r:
    bool)
    requires
        old(graph).wf(),
        max_length < usize::MAX,
    ensures
        final(graph).wf(),
        r == parallel_between(old(graph)@, from_node, to_node, max_length as nat),
        exists|paths: Seq<Seq<u32>>|
            enumerates(old(graph).edges().dom(), from_node, to_node, 1, max_length as nat, paths)
                && r == is_parallel(old(graph).edges(), from_node, to_node, paths) && (if r {
                resolves(old(graph)@, final(graph)@, paths)
            } else {
                final(graph)@ == old(graph)@
            }),
{
    let paths = paths_between(graph, from_node, to_node, max_length);
    let total = path_mass(graph, &paths);
    let ghost listed = routes(paths@);
    proof {
        lemma_parallel_between(graph@, from_node, to_node, max_length as nat, listed);
    }
    if from_node != to_node && exceeds_one_mass(total) {
        proof {
            assert(listed.len() > 0) by {
                if listed.len() == 0 {
                    assert(mass(graph.edges(), listed) == 0);
                }
            }
        }
        keep_critical_path(graph, &paths);
        proof {
            assert(enumerates(
                old(graph).edges().dom(),
                from_node,
                to_node,
                1,
                max_length as nat,
                listed,
            ) && is_parallel(old(graph).edges(), from_node, to_node, listed) && resolves(
                old(graph)@,
                graph@,
                listed,
            ));
        }
        true
    } else {
        proof {
            assert(enumerates(
                old(graph).edges().dom(),
                from_node,
                to_node,
                1,
                max_length as nat,
                listed,
            ) && !is_parallel(old(graph).edges(), from_node, to_node, listed) && graph@ == old(graph)@);
        }
        false
    }
}

/// A rule that rewrites the paths between two nodes.
#[derive(Debug, PartialEq, Eq, Clone, Copy)]
pub enum Rule {
    /// Exhaustive alternatives are merged into a branch node.
    Branches,
    /// Of concurrent paths only the one of greatest duration stays.
    Parallels,
}

/// Whether the rule applies to the listed paths from `from` to `to`.
pub open spec fn applies(
    rule: Rule,
    edges: Map<(u32, u32), u64>,
    from: u32,
    to: u32,
    paths: Seq<Seq<u32>>,
) -> bool {
    match rule {
        Rule::Branches => is_branch(edges, from, to, paths),
        Rule::Parallels => is_parallel(edges, from, to, paths),
    }
}

/// Whether `after` is what the rule makes of `before` and the listed paths
/// from `from` to `to`.
pub open spec fn rewrites(
    rule: Rule,
    before: FlowView,
    after: FlowView,
    from: u32,
    to: u32,
    paths: Seq<Seq<u32>>,
) -> bool {
    match rule {
        Rule::Branches => exists|b: u32| merges(before, after, from, to, paths, b),
        Rule::Parallels => resolves(before, after, paths),
    }
}

/// Whether one application of the rule, to the paths between some pair of
/// nodes, leads from `before` to `after`.
pub open spec fn rule_step(rule: Rule, before: FlowView, after: FlowView) -> bool {
    exists|from: u32, to: u32, max: nat, paths: Seq<Seq<u32>>| #[trigger]
        enumerates(before.edges.dom(), from, to, 1, max, paths) && applies(
            rule,
            before.edges,
            from,
            to,
            paths,
        ) && rewrites(rule, before, after, from, to, paths)
}

/// Whether the rule does not apply to the paths from `from` to `to` through
/// at least one and at most `max` other nodes.
pub open spec fn settled(rule: Rule, graph: FlowView, from: u32, to: u32, max: nat) -> bool {
    exists|paths: Seq<Seq<u32>>| #[trigger]
        enumerates(graph.edges.dom(), from, to, 1, max, paths) && !applies(
            rule,
            graph.edges,
            from,
            to,
            paths,
        )
}

/// Whether each graph of the list follows from the one before it by one
/// application of the rule.
pub open spec fn rule_chain(rule: Rule, trace: Seq<FlowView>) -> bool {
    &&& trace.len() >= 1
    &&& forall|i: int| 0 <= i < trace.len() - 1 ==> #[trigger] rule_step(rule, trace[i], trace[i + 1])
}

/// Whether the rule applies to no pair of nodes of the graph, whatever the
/// bound on the length of the paths.
pub open spec fn everywhere_settled(rule: Rule, graph: FlowView) -> bool {
    forall|from: u32, to: u32, max: nat|
        graph.nodes.contains_key(from) && graph.nodes.contains_key(to) && 1 <= max
            < graph.nodes.len() ==> #[trigger] settled(rule, graph, from, to, max)
}

/// Whether `after` is reached from `before` by applications of the rule, one
/// after the other; `changed` says whether there was any. Where there was
/// none, the rule applies nowhere in `before`.
pub open spec fn scans(rule: Rule, before: FlowView, after: FlowView, changed: bool) -> bool {
    exists|trace: Seq<FlowView>|
        #![trigger rule_chain(rule, trace)]
        rule_chain(rule, trace) && trace[0] == before && trace[trace.len() - 1] == after && changed
            == (trace.len() > 1) && (!changed ==> everywhere_settled(rule, before))
}

/// Applies the rule to the paths from `from_node` to `to_node` through at
/// least one and at most `max_length` other nodes. Returns whether the rule
/// applied.
pub fn apply_rule(rule: Rule, from_node: u32, to_node: u32, graph: &mut FlowGraph, max_length: usize) -> (changed:
    bool)
    requires
        old(graph).wf(),
        max_length < usize::MAX,
    ensures
        final(graph).wf(),
        changed ==> rule_step(rule, old(graph)@, final(graph)@),
        !changed ==> final(graph)@ == old(graph)@,
        !changed ==> settled(rule, old(graph)@, from_node, to_node, max_length as nat),
{
    match rule {
        Rule::Branches => {
            let r = remove_branch(from_node, to_node, graph, max_length);
            proof {
                let paths = choose|paths: Seq<Seq<u32>>|
                    enumerates(
                        old(graph).edges().dom(),
                        from_node,
                        to_node,
                        1,
                        max_length as nat,
                        paths,
                    ) && match r {
                        Some(b) => is_branch(old(graph).edges(), from_node, to_node, paths)
                            && merges(old(graph)@, graph@, from_node, to_node, paths, b),
                        None => !is_branch(old(graph).edges(), from_node, to_node, paths)
                            && graph@ == old(graph)@,
                    };
                assert(enumerates(
                    old(graph)@.edges.dom(),
                    from_node,
                    to_node,
                    1,
                    max_length as nat,
                    paths,
                ));
            }
            r.is_some()
        },
        Rule::Parallels => {
            let r = remove_parallel(from_node, to_node, graph, max_length);
            proof {
                let paths = choose|paths: Seq<Seq<u32>>|
                    enumerates(
                        old(graph).edges().dom(),
                        from_node,
                        to_node,
                        1,
                        max_length as nat,
                        paths,
                    ) && r == is_parallel(old(graph).edges(), from_node, to_node, paths) && (if r {
                        resolves(old(graph)@, graph@, paths)
                    } else {
                        graph@ == old(graph)@
                    });
                assert(enumerates(
                    old(graph)@.edges.dom(),
                    from_node,
                    to_node,
                    1,
                    max_length as nat,
                    paths,
                ));
            }
            r
        },
    }
}

/// Applies the rule to every ordered pair of nodes, first to the paths
/// through one other node, then through at most two, and so on up to the
/// number of nodes, so that small structures go before those that enclose
/// them. The pairs are those of the nodes at the start, in ascending order.
/// Returns whether the rule applied anywhere.
pub fn apply_everywhere(rule: Rule, graph: &mut FlowGraph) -> (changed: bool)
    requires
        old(graph).wf(),
    ensures
        final(graph).wf(),
        scans(rule, old(graph)@, final(graph)@, changed),
{
    let indices = graph.node_indices();
    let count = graph.node_count();
    let ghost mut trace: Seq<FlowView> = seq![graph@];
    let mut changed = false;
    let mut len: usize = 1;
    while len < count
        invariant
            1 <= len,
            count == old(graph).nodes().len(),
            graph.wf(),
            rule_chain(rule, trace),
            trace[0] == old(graph)@,
            trace[trace.len() - 1] == graph@,
            changed == (trace.len() > 1),
            !changed ==> forall|a: int, b: int, m: nat|
                0 <= a < indices@.len() && 0 <= b < indices@.len() && 1 <= m < len
                    ==> #[trigger] settled(rule, old(graph)@, indices@[a], indices@[b], m),
        decreases count - len,
    {
        let mut f: usize = 0;
        while f < indices.len()
            invariant
                1 <= len < count,
                0 <= f <= indices.len(),
                graph.wf(),
                rule_chain(rule, trace),
                trace[0] == old(graph)@,
                trace[trace.len() - 1] == graph@,
                changed == (trace.len() > 1),
                !changed ==> forall|a: int, b: int, m: nat|
                    0 <= a < indices@.len() && 0 <= b < indices@.len() && 1 <= m < len
                        ==> #[trigger] settled(rule, old(graph)@, indices@[a], indices@[b], m),
                !changed ==> forall|a: int, b: int|
                    0 <= a < f && 0 <= b < indices@.len() ==> #[trigger] settled(
                        rule,
                        old(graph)@,
                        indices@[a],
                        indices@[b],
                        len as nat,
                    ),
            decreases indices.len() - f,
        {
            let mut t: usize = 0;
            while t < indices.len()
                invariant
                    1 <= len < count,
                    0 <= f < indices.len(),
                    0 <= t <= indices.len(),
                    graph.wf(),
                    rule_chain(rule, trace),
                    trace[0] == old(graph)@,
                    trace[trace.len() - 1] == graph@,
                    changed == (trace.len() > 1),
                    !changed ==> forall|a: int, b: int, m: nat|
                        0 <= a < indices@.len() && 0 <= b < indices@.len() && 1 <= m < len
                            ==> #[trigger] settled(rule, old(graph)@, indices@[a], indices@[b], m),
                    !changed ==> forall|a: int, b: int|
                        0 <= a < f && 0 <= b < indices@.len() ==> #[trigger] settled(
                            rule,
                            old(graph)@,
                            indices@[a],
                            indices@[b],
                            len as nat,
                        ),
                    !changed ==> forall|b: int|
                        0 <= b < t ==> #[trigger] settled(
                            rule,
                            old(graph)@,
                            indices@[f as int],
                            indices@[b],
                            len as nat,
                        ),
                decreases indices.len() - t,
            {
                let ghost before = graph@;
                if apply_rule(rule, indices[f], indices[t], graph, len) {
                    changed = true;
                    proof {
                        let longer = trace.push(graph@);
                        assert forall|i: int| 0 <= i < longer.len() - 1 implies #[trigger] rule_step(
                            rule,
                            longer[i],
                            longer[i + 1],
                        ) by {
                            if i < trace.len() - 1 {
                                assert(rule_step(rule, trace[i], trace[i + 1]));
                            }
                        }
                        trace = longer;
                    }
                }
                t += 1;
            }
            f += 1;
        }
        proof {
            if !changed {
                assert forall|a: int, b: int, m: nat|
                    0 <= a < indices@.len() && 0 <= b < indices@.len() && 1 <= m < len + 1
                    implies #[trigger] settled(rule, old(graph)@, indices@[a], indices@[b], m) by {
                    if m == len {
                        assert(settled(rule, old(graph)@, indices@[a], indices@[b], len as nat));
                    }
                }
            }
        }
        len += 1;
    }
    proof {
        if !changed {
            assert forall|from: u32, to: u32, max: nat|
                old(graph).nodes().contains_key(from) && old(graph).nodes().contains_key(to) && 1
                    <= max < old(graph).nodes().len() implies #[trigger] settled(
                rule,
                old(graph)@,
                from,
                to,
                max,
            ) by {
                assert(indices@.contains(from));
                assert(indices@.contains(to));
                let a = choose|a: int| 0 <= a < indices@.len() && indices@[a] == from;
                let b = choose|b: int| 0 <= b < indices@.len() && indices@[b] == to;
                assert(settled(rule, old(graph)@, indices@[a], indices@[b], max));
            }
        }
        assert(rule_chain(rule, trace));
    }
    changed
}

/// Merges exhaustive alternatives everywhere: the branch rule of the
/// reduction.
/// Returns whether anything was merged.
pub fn remove_branches(graph: &mut FlowGraph) -> (changed: bool)
    requires
        old(graph).wf(),
    ensures
        final(graph).wf(),
        scans(Rule::Branches, old(graph)@, final(graph)@, changed),
{
    apply_everywhere(Rule::Branches, graph)
}

/// Resolves concurrent paths everywhere: the parallel rule of the
/// reduction.
/// Returns whether anything was removed.
pub fn remove_parallels(graph: &mut FlowGraph) -> (changed: bool)
    requires
        old(graph).wf(),
    ensures
        final(graph).wf(),
        scans(Rule::Parallels, old(graph)@, final(graph)@, changed),
{
    apply_everywhere(Rule::Parallels, graph)
}

/// The number of passes after which a reduction gives up.
pub const MAX_PASSES: usize = 1_000;

/// Whether exactly one path leads from `from` to `to` through at most `max`
/// other nodes.
pub open spec fn single_route(arcs: Set<(u32, u32)>, from: u32, to: u32, max: nat) -> bool {
    exists|p: Seq<u32>| #[trigger]
        is_route(arcs, from, to, 0, max, p) && forall|q: Seq<u32>|
            is_route(arcs, from, to, 0, max, q) ==> q == p
}

/// Whether the graph is fully reduced: it holds both end points, has no
/// cycle, and exactly one path leads from the entry to the end point.
pub open spec fn reduced(graph: FlowView, entry_point: u32, end_point: u32) -> bool {
    &&& graph.nodes.contains_key(entry_point)
    &&& graph.nodes.contains_key(end_point)
    &&& !has_cycle(graph.edges.dom())
    &&& single_route(graph.edges.dom(), entry_point, end_point, (graph.nodes.len() - 1) as nat)
}

/// Whether the graph is fully reduced.
pub fn is_reduced(graph: &FlowGraph, entry_point: u32, end_point: u32) -> (r: bool)
    requires
        graph.wf(),
    ensures
        r == reduced(graph@, entry_point, end_point),
{
    if graph.node(entry_point).is_none() || graph.node(end_point).is_none() {
        return false;
    }
    proof {
        graph.lemma_wf();
        assert(graph.nodes().dom().contains(entry_point));
    }
    let count = graph.node_count();
    let paths = graph.simple_paths(entry_point, end_point, 0, count - 1);
    let cyclic = graph.is_cyclic();
    proof {
        let arcs = graph.edges().dom();
        let max = (count - 1) as nat;
        if paths@.len() == 1 {
            let p = paths@[0]@;
            assert(is_route(arcs, entry_point, end_point, 0, max, p));
            assert forall|q: Seq<u32>| is_route(arcs, entry_point, end_point, 0, max, q) implies q
                == p by {
                let k = choose|k: int| 0 <= k < paths@.len() && (#[trigger] paths@[k])@ == q;
            }
        }
        if single_route(arcs, entry_point, end_point, max) {
            let p = choose|p: Seq<u32>| #[trigger]
                is_route(arcs, entry_point, end_point, 0, max, p) && forall|q: Seq<u32>|
                    is_route(arcs, entry_point, end_point, 0, max, q) ==> q == p;
            let k = choose|k: int| 0 <= k < paths@.len() && (#[trigger] paths@[k])@ == p;
            if paths@.len() > 1 {
                let other = if k == 0 {
                    1int
                } else {
                    0int
                };
                assert(is_route(arcs, entry_point, end_point, 0, max, paths@[other]@));
                assert(paths@[other]@ == p);
                if k == 0 {
                    assert(paths@[0]@ != paths@[1]@);
                } else {
                    assert(paths@[0]@ != paths@[k]@);
                }
            }
        }
    }
    !cyclic && paths.len() == 1
}

/// Whether some node has a loop.
pub open spec fn has_loop(edges: Map<(u32, u32), u64>) -> bool {
    exists|n: u32| edges.contains_key((n, n))
}

/// Whether `after` is `before` with every loop folded into its node.
pub open spec fn folds_loops(before: FlowView, after: FlowView) -> bool {
    &&& forall|n: u32| !degenerate_at(before.edges, n)
    &&& after.edges == edges_without_loops(before.edges, Set::full())
    &&& after.nodes == nodes_without_loops(before.nodes, before.edges, Set::full())
}

/// Whether one pass of the reduction leads from `before` to `after`: all
/// loops are folded, then concurrent paths are resolved everywhere, then
/// exhaustive alternatives are merged everywhere. `changed` says whether
/// any of the three found something to do.
pub open spec fn pass(before: FlowView, after: FlowView, changed: bool) -> bool {
    exists|folded: FlowView, resolved: FlowView, a: bool, b: bool|
        #![trigger scans(Rule::Parallels, folded, resolved, a), scans(Rule::Branches, resolved, after, b)]
        folds_loops(before, folded) && scans(Rule::Parallels, folded, resolved, a) && scans(
            Rule::Branches,
            resolved,
            after,
            b,
        ) && changed == (has_loop(before.edges) || a || b)
}

/// Whether no rule of the reduction applies to the graph.
pub open spec fn stuck(graph: FlowView) -> bool {
    &&& !has_loop(graph.edges)
    &&& everywhere_settled(Rule::Parallels, graph)
    &&& everywhere_settled(Rule::Branches, graph)
}

/// Whether `before` is not yet reduced and one pass of the reduction that
/// finds something to do leads from it to `after`.
pub open spec fn advances(before: FlowView, after: FlowView, entry_point: u32, end_point: u32) -> bool {
    !reduced(before, entry_point, end_point) && pass(before, after, true)
}

/// Whether each graph of the list is not yet reduced and leads to the next
/// by one pass that found something to do.
pub open spec fn pass_chain(states: Seq<FlowView>, entry_point: u32, end_point: u32) -> bool {
    &&& states.len() >= 1
    &&& forall|i: int|
        0 <= i < states.len() - 1 ==> #[trigger] advances(
            states[i],
            states[i + 1],
            entry_point,
            end_point,
        )
}

/// Reduces the graph towards a single path from `entry_point` to
/// `end_point`. Each pass folds all loops, then resolves concurrent paths,
/// then merges exhaustive alternatives; the passes go on until the graph has
/// no cycle and exactly one path leads from the entry to the end point. A
/// graph that is already reduced stays as it is. A loop that never ends is
/// reported when the pass that meets it begins. When no rule applies any
/// more, or after [`MAX_PASSES`] passes, a graph that is still not reduced
/// is reported as irreducible. In each case the graph is left as the last
/// pass that changed it made it.
pub fn flatten(graph: &mut FlowGraph, entry_point: u32, end_point: u32) -> (r: Result<
    (),
    ReductionError,
>)
    requires
        old(graph).wf(),
    ensures
        final(graph).wf(),
        exists|states: Seq<FlowView>|
            #![trigger pass_chain(states, entry_point, end_point)]
            pass_chain(states, entry_point, end_point) && states[0] == old(graph)@ && states[states.len()
                - 1] == final(graph)@ && states.len() - 1 <= MAX_PASSES && match r {
                Ok(_) => reduced(final(graph)@, entry_point, end_point),
                Err(ReductionError::MissingEndpoint) => states.len() == 1,
                Err(ReductionError::DegenerateLoop { node }) => {
                    &&& !reduced(final(graph)@, entry_point, end_point)
                    &&& degenerate_at(final(graph).edges(), node)
                    &&& forall|n: u32| n < node ==> !degenerate_at(final(graph).edges(), n)
                },
                Err(ReductionError::Irreducible) => {
                    &&& !reduced(final(graph)@, entry_point, end_point)
                    &&& stuck(final(graph)@) || states.len() - 1 == MAX_PASSES
                },
            },
        (r == Err::<(), ReductionError>(ReductionError::MissingEndpoint)) <==> !(old(graph).nodes().contains_key(
            entry_point,
        ) && old(graph).nodes().contains_key(end_point)),
        reduced(old(graph)@, entry_point, end_point) ==> r is Ok && final(graph)@ == old(graph)@,
        old(graph).nodes().contains_key(entry_point) && old(graph).nodes().contains_key(end_point)
            && (exists|n: u32| degenerate_at(old(graph).edges(), n)) ==> r is Err && r->Err_0
            is DegenerateLoop && degenerate_at(old(graph).edges(), r->Err_0->node) && final(graph)@
            == old(graph)@,
{
    let ghost mut states: Seq<FlowView> = seq![graph@];
    if graph.node(entry_point).is_none() || graph.node(end_point).is_none() {
        proof {
            assert(pass_chain(states, entry_point, end_point));
        }
        return Err(ReductionError::MissingEndpoint);
    }
    let mut passes: usize = 0;
    while passes < MAX_PASSES
        invariant
            0 <= passes <= MAX_PASSES,
            graph.wf(),
            old(graph).nodes().contains_key(entry_point),
            old(graph).nodes().contains_key(end_point),
            pass_chain(states, entry_point, end_point),
            states[0] == old(graph)@,
            states[states.len() - 1] == graph@,
            states.len() == passes + 1,
            passes > 0 ==> !reduced(old(graph)@, entry_point, end_point),
            passes > 0 ==> forall|n: u32| !degenerate_at(old(graph).edges(), n),
        decreases MAX_PASSES - passes,
    {
        let ghost at_start = graph@;
        proof {
            if exists|n: u32| degenerate_at(graph.edges(), n) {
                let n = choose|n: u32| degenerate_at(graph.edges(), n);
                let walk = seq![n, n];
                assert(graph.edges().dom().contains((walk[0], walk[0int + 1])));
                assert(has_cycle(graph.edges().dom()));
            }
        }
        if is_reduced(graph, entry_point, end_point) {
            return Ok(());
        }
        let folded = match remove_self_loops(graph) {
            Ok(folded) => folded,
            Err(e) => {
                return Err(e);
            },
        };
        let ghost after_loops = graph@;
        proof {
            assert(folds_loops(at_start, after_loops));
            assert(folded == has_loop(at_start.edges));
            if !folded {
                assert(graph.edges() =~= at_start.edges);
                assert(graph.nodes() =~= at_start.nodes);
            }
        }
        let resolved = remove_parallels(graph);
        let ghost after_parallels = graph@;
        let merged = remove_branches(graph);
        proof {
            assert(scans(Rule::Parallels, after_loops, after_parallels, resolved));
            assert(scans(Rule::Branches, after_parallels, graph@, merged));
            assert(pass(at_start, graph@, folded || resolved || merged));
            if !resolved {
                assert(after_parallels == after_loops);
            }
            if !merged {
                assert(graph@ == after_parallels);
            }
        }
        if !folded && !resolved && !merged {
            proof {
                assert(graph@ == at_start);
                assert(stuck(graph@));
            }
            return Err(ReductionError::Irreducible);
        }
        proof {
            let longer = states.push(graph@);
            assert forall|i: int| 0 <= i < longer.len() - 1 implies #[trigger] advances(
                longer[i],
                longer[i + 1],
                entry_point,
                end_point,
            ) by {
                if i < states.len() - 1 {
                    assert(advances(states[i], states[i + 1], entry_point, end_point));
                } else {
                    assert(longer[i] == at_start);
                    assert(longer[i + 1] == graph@);
                    assert(pass(at_start, graph@, true));
                }
            }
            states = longer;
        }
        passes += 1;
    }
    if is_reduced(graph, entry_point, end_point) {
        Ok(())
    } else {
        Err(ReductionError::Irreducible)
    }
}

/// The path from the entry to the end point of a reduced graph.
pub open spec fn remaining_route(graph: FlowView, entry_point: u32, end_point: u32) -> Seq<u32> {
    choose|p: Seq<u32>| #[trigger]
        is_route(
            graph.edges.dom(),
            entry_point,
            end_point,
            0,
            (graph.nodes.len() - 1) as nat,
            p,
        )
}

/// The estimated time from the entry to the end point of a reduced graph:
/// the sum of the durations of the nodes on the one path between them, a
/// branch node counting with the probability-weighted sum of its
/// alternatives. A graph that is not reduced has no estimate.
pub fn estimate(graph: &FlowGraph, entry_point: u32, end_point: u32) -> (r: Option<u64>)
    requires
        graph.wf(),
    ensures
        r == (if reduced(graph@, entry_point, end_point) {
            Some(path_duration(graph.nodes(), remaining_route(graph@, entry_point, end_point)))
        } else {
            None
        }),
{
    if !is_reduced(graph, entry_point, end_point) {
        return None;
    }
    proof {
        graph.lemma_wf();
        assert(graph.nodes().dom().contains(entry_point));
    }
    let count = graph.node_count();
    let paths = graph.simple_paths(entry_point, end_point, 0, count - 1);
    proof {
        let arcs = graph.edges().dom();
        let max = (count - 1) as nat;
        let p = choose|p: Seq<u32>| #[trigger]
            is_route(arcs, entry_point, end_point, 0, max, p) && forall|q: Seq<u32>|
                is_route(arcs, entry_point, end_point, 0, max, q) ==> q == p;
        let k = choose|k: int| 0 <= k < paths@.len() && (#[trigger] paths@[k])@ == p;
        assert(is_route(arcs, entry_point, end_point, 0, max, paths@[0]@));
        assert(paths@[0]@ == p);
        assert(remaining_route(graph@, entry_point, end_point) == p);
    }
    if paths.len() == 0 {
        return None;
    }
    Some(path_duration_of(graph, &paths[0]))
}

} // verus!

//! Paths between two nodes of a reduction graph: their probability, their
//! duration, and the probability mass of all of them together.

use crate::flow::FlowGraph;
use crate::node::{
    duration, exceeds_one, is_one, product, product_of, saturate, sum, sum_of, NodeView, ONE,
    TOLERANCE,
};
use crate::store::is_route;
use vstd::prelude::*;

verus! {

/// The paths of a list, each as a sequence of node indices.
pub open spec fn routes(paths: Seq<Vec<u32>>) -> Seq<Seq<u32>> {
    Seq::new(paths.len(), |i: int| paths[i]@)
}

/// The probability of the edge from `a` to `b`, zero where there is none.
pub open spec fn weight_between(edges: Map<(u32, u32), u64>, a: u32, b: u32) -> u64 {
    if edges.contains_key((a, b)) {
        edges[(a, b)]
    } else {
        0
    }
}

/// The probability of a path: the product of the probabilities of its edges.
pub open spec fn path_probability(edges: Map<(u32, u32), u64>, path: Seq<u32>) -> u64
    decreases path.len(),
{
    if path.len() < 2 {
        ONE
    } else {
        product(
            path_probability(edges, path.drop_last()),
            weight_between(edges, path[path.len() - 2], path[path.len() - 1]),
        )
    }
}

/// The probability mass of a list of paths: the sum of their probabilities.
pub open spec fn mass(edges: Map<(u32, u32), u64>, paths: Seq<Seq<u32>>) -> u64
    decreases paths.len(),
{
    if paths.len() == 0 {
        0
    } else {
        sum(mass(edges, paths.drop_last()), path_probability(edges, paths.last()))
    }
}

/// The duration of the node with index `n`, zero where there is none.
pub open spec fn duration_at(nodes: Map<u32, NodeView>, n: u32) -> u64 {
    if nodes.contains_key(n) {
        duration(nodes[n])
    } else {
        0
    }
}

/// The duration of a path: the sum of the durations of its nodes.
pub open spec fn path_duration(nodes: Map<u32, NodeView>, path: Seq<u32>) -> u64
    decreases path.len(),
{
    if path.len() == 0 {
        0
    } else {
        sum(path_duration(nodes, path.drop_last()), duration_at(nodes, path.last()))
    }
}

/// `paths` lists the paths from `from` to `to` with between `min` and `max`
/// nodes in between: each of them once, and nothing else.
pub open spec fn enumerates(
    arcs: Set<(u32, u32)>,
    from: u32,
    to: u32,
    min: nat,
    max: nat,
    paths: Seq<Seq<u32>>,
) -> bool {
    &&& forall|k: int|
        0 <= k < paths.len() ==> is_route(arcs, from, to, min, max, #[trigger] paths[k])
    &&& forall|p: Seq<u32>|
        is_route(arcs, from, to, min, max, p) ==> exists|k: int|
            0 <= k < paths.len() && #[trigger] paths[k] == p
    &&& forall|i: int, j: int| 0 <= i < j < paths.len() ==> #[trigger] paths[i] != #[trigger] paths[j]
}

/// Executable form of [`is_one`].
pub fn is_one_mass(mass: u64) -> (r: bool)
    ensures
        r == is_one(mass),
{
    ONE - TOLERANCE <= mass && mass <= ONE + TOLERANCE
}

/// Executable form of [`exceeds_one`].
pub fn exceeds_one_mass(mass: u64) -> (r: bool)
    ensures
        r == exceeds_one(mass),
{
    mass > ONE + TOLERANCE
}

/// The probability of `path` in `graph`.
pub fn path_probability_of(graph: &FlowGraph, path: &Vec<u32>) -> (r: u64)
    requires
        graph.wf(),
    ensures
        r == path_probability(graph.edges(), path@),
{
    let mut acc: u64 = ONE;
    if path.len() < 2 {
        return acc;
    }
    let mut i: usize = 1;
    assert(path_probability(graph.edges(), path@.take(1)) == ONE);
    while i < path.len()
        invariant
            1 <= i <= path.len(),
            graph.wf(),
            acc == path_probability(graph.edges(), path@.take(i as int)),
        decreases path.len() - i,
    {
        let w = match graph.edge(path[i - 1], path[i]) {
            Some(w) => w,
            None => 0,
        };
        proof {
            let next = path@.take(i + 1);
            assert(next.drop_last() =~= path@.take(i as int));
        }
        acc = product_of(acc, w);
        i += 1;
    }
    assert(path@.take(i as int) =~= path@);
    acc
}

/// The probability mass of `paths` in `graph`.
pub fn path_mass(graph: &FlowGraph, paths: &Vec<Vec<u32>>) -> (r: u64)
    requires
        graph.wf(),
    ensures
        r == mass(graph.edges(), routes(paths@)),
{
    let mut total: u64 = 0;
    let mut i: usize = 0;
    while i < paths.len()
        invariant
            0 <= i <= paths.len(),
            graph.wf(),
            total == mass(graph.edges(), routes(paths@).take(i as int)),
        decreases paths.len() - i,
    {
        let p = path_probability_of(graph, &paths[i]);
        proof {
            let next = routes(paths@).take(i + 1);
            assert(next.drop_last() =~= routes(paths@).take(i as int));
        }
        total = sum_of(total, p);
        i += 1;
    }
    assert(routes(paths@).take(i as int) =~= routes(paths@));
    total
}

/// The duration of `path` in `graph`.
pub fn path_duration_of(graph: &FlowGraph, path: &Vec<u32>) -> (r: u64)
    ensures
        r == path_duration(graph.nodes(), path@),
{
    let mut total: u64 = 0;
    let mut i: usize = 0;
    while i < path.len()
        invariant
            0 <= i <= path.len(),
            total == path_duration(graph.nodes(), path@.take(i as int)),
        decreases path.len() - i,
    {
        let d = match graph.node(path[i]) {
            Some(node) => node.duration(),
            None => 0,
        };
        proof {
            let next = path@.take(i + 1);
            assert(next.drop_last() =~= path@.take(i as int));
        }
        total = sum_of(total, d);
        i += 1;
    }
    assert(path@.take(i as int) =~= path@);
    total
}

/// The paths from `from` to `to` with at least one and at most `max_length`
/// nodes in between, in the order in which the search finds them.
pub fn paths_between(graph: &FlowGraph, from: u32, to: u32, max_length: usize) -> (r: Vec<
    Vec<u32>,
>)
    requires
        graph.wf(),
        max_length < usize::MAX,
    ensures
        enumerates(graph.edges().dom(), from, to, 1, max_length as nat, routes(r@)),
{
    let r = graph.simple_paths(from, to, 1, max_length);
    proof {
        let listed = routes(r@);
        assert forall|p: Seq<u32>|
            is_route(graph.edges().dom(), from, to, 1, max_length as nat, p) implies exists|k: int|
            0 <= k < listed.len() && #[trigger] listed[k] == p by {
            let k = choose|k: int| 0 <= k < r@.len() && (#[trigger] r@[k])@ == p;
            assert(listed[k] == p);
        }
    }
    r
}

/// The sum of the probabilities of the paths, without an upper limit.
pub open spec fn total_probability(edges: Map<(u32, u32), u64>, paths: Seq<Seq<u32>>) -> int
    decreases paths.len(),
{
    if paths.len() == 0 {
        0
    } else {
        total_probability(edges, paths.drop_last()) + path_probability(edges, paths.last())
    }
}

/// The mass of a list of paths is the sum of their probabilities, cut off at
/// `u64::MAX`.
pub proof fn lemma_mass_is_total(edges: Map<(u32, u32), u64>, paths: Seq<Seq<u32>>)
    ensures
        total_probability(edges, paths) >= 0,
        mass(edges, paths) == saturate(total_probability(edges, paths)),
    decreases paths.len(),
{
    if paths.len() > 0 {
        lemma_mass_is_total(edges, paths.drop_last());
    }
}

/// The sum of the probabilities of a list is that of the list without one
/// path, plus the probability of that path.
proof fn lemma_total_without(edges: Map<(u32, u32), u64>, paths: Seq<Seq<u32>>, k: int)
    requires
        0 <= k < paths.len(),
    ensures
        total_probability(edges, paths) == total_probability(edges, paths.remove(k))
            + path_probability(edges, paths[k]),
    decreases paths.len(),
{
    if k == paths.len() - 1 {
        assert(paths.remove(k) =~= paths.drop_last());
    } else {
        lemma_total_without(edges, paths.drop_last(), k);
        let rest = paths.remove(k);
        assert(rest.drop_last() =~= paths.drop_last().remove(k));
        assert(rest.last() == paths.last());
    }
}

/// Two lists that hold the same paths, each once, have the same sum of
/// probabilities.
pub proof fn lemma_total_of_same_paths(
    edges: Map<(u32, u32), u64>,
    first: Seq<Seq<u32>>,
    second: Seq<Seq<u32>>,
)
    requires
        first.no_duplicates(),
        second.no_duplicates(),
        forall|p: Seq<u32>| first.contains(p) <==> second.contains(p),
    ensures
        total_probability(edges, first) == total_probability(edges, second),
    decreases first.len(),
{
    if first.len() == 0 {
        if second.len() > 0 {
            assert(second.contains(second[0]));
            assert(first.contains(second[0]));
        }
    } else {
        let p = first.last();
        assert(first.contains(p));
        assert(second.contains(p));
        let k = choose|k: int| 0 <= k < second.len() && second[k] == p;
        let front = first.drop_last();
        let rest = second.remove(k);
        assert(front.no_duplicates());
        assert(rest.no_duplicates()) by {
            assert forall|i: int, j: int| 0 <= i < rest.len() && 0 <= j < rest.len() && i != j implies rest[i]
                != rest[j] by {
                let a = if i < k {
                    i
                } else {
                    i + 1
                };
                let b = if j < k {
                    j
                } else {
                    j + 1
                };
                assert(rest[i] == second[a] && rest[j] == second[b]);
            }
        }
        assert forall|q: Seq<u32>| front.contains(q) <==> rest.contains(q) by {
            if front.contains(q) {
                let i = choose|i: int| 0 <= i < front.len() && front[i] == q;
                assert(first[i] == q);
                assert(q != p);
                assert(first.contains(q));
                let j = choose|j: int| 0 <= j < second.len() && second[j] == q;
                if j < k {
                    assert(rest[j] == q);
                } else {
                    assert(rest[j - 1] == q);
                }
            }
            if rest.contains(q) {
                let j = choose|j: int| 0 <= j < rest.len() && rest[j] == q;
                let b = if j < k {
                    j
                } else {
                    j + 1
                };
                assert(second[b] == q);
                assert(second.contains(q));
                assert(q != p);
                let i = choose|i: int| 0 <= i < first.len() && first[i] == q;
                assert(front[i] == q);
            }
        }
        lemma_total_of_same_paths(edges, front, rest);
        lemma_total_without(edges, second, k);
    }
}

/// The mass of the paths between two nodes does not depend on the order in
/// which they are listed.
pub proof fn lemma_mass_of_enumerations(
    edges: Map<(u32, u32), u64>,
    arcs: Set<(u32, u32)>,
    from: u32,
    to: u32,
    min: nat,
    max: nat,
    first: Seq<Seq<u32>>,
    second: Seq<Seq<u32>>,
)
    requires
        enumerates(arcs, from, to, min, max, first),
        enumerates(arcs, from, to, min, max, second),
    ensures
        mass(edges, first) == mass(edges, second),
        first.len() == 0 <==> second.len() == 0,
{
    assert forall|p: Seq<u32>| first.contains(p) <==> second.contains(p) by {
        if first.contains(p) {
            let i = choose|i: int| 0 <= i < first.len() && first[i] == p;
            assert(is_route(arcs, from, to, min, max, first[i]));
            let j = choose|j: int| 0 <= j < second.len() && #[trigger] second[j] == p;
        }
        if second.contains(p) {
            let j = choose|j: int| 0 <= j < second.len() && second[j] == p;
            assert(is_route(arcs, from, to, min, max, second[j]));
            let i = choose|i: int| 0 <= i < first.len() && #[trigger] first[i] == p;
        }
    }
    lemma_total_of_same_paths(edges, first, second);
    lemma_mass_is_total(edges, first);
    lemma_mass_is_total(edges, second);
    if first.len() > 0 {
        assert(first.contains(first[0]));
    }
    if second.len() > 0 {
        assert(second.contains(second[0]));
    }
}

} // verus!

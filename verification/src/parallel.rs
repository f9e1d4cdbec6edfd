//! Resolving concurrent paths between two nodes: only the path that takes the
//! longest stays. The paths that leave add nothing to the estimate; the time
//! of a parallel group is the time of its slowest member.

use crate::branch::{edges_outside, interior, interior_besides, nodes_outside, remove_interior};
use crate::flow::FlowGraph;
use crate::node::{exceeds_one, NodeView};
use crate::paths::{enumerates, mass, path_duration, path_duration_of, routes};
use crate::store::is_route;
use vstd::prelude::*;

verus! {

/// The position of the first path of greatest duration.
pub open spec fn critical_index(nodes: Map<u32, NodeView>, paths: Seq<Seq<u32>>) -> int
    decreases paths.len(),
{
    if paths.len() <= 1 {
        0
    } else {
        let c = critical_index(nodes, paths.drop_last());
        if path_duration(nodes, paths.last()) > path_duration(nodes, paths[c]) {
            paths.len() - 1
        } else {
            c
        }
    }
}

/// The critical path is one of the paths, none takes longer, and none before
/// it takes as long.
pub proof fn lemma_critical_index(nodes: Map<u32, NodeView>, paths: Seq<Seq<u32>>)
    requires
        paths.len() > 0,
    ensures
        0 <= critical_index(nodes, paths) < paths.len(),
        forall|k: int|
            0 <= k < paths.len() ==> path_duration(nodes, #[trigger] paths[k]) <= path_duration(
                nodes,
                paths[critical_index(nodes, paths)],
            ),
        forall|k: int|
            0 <= k < critical_index(nodes, paths) ==> path_duration(nodes, #[trigger] paths[k])
                < path_duration(nodes, paths[critical_index(nodes, paths)]),
    decreases paths.len(),
{
    if paths.len() > 1 {
        let front = paths.drop_last();
        lemma_critical_index(nodes, front);
        let c = critical_index(nodes, front);
        assert(front[c] == paths[c]);
        assert forall|k: int| 0 <= k < paths.len() implies path_duration(nodes, #[trigger] paths[k])
            <= path_duration(nodes, paths[critical_index(nodes, paths)]) by {
            if k < front.len() {
                assert(front[k] == paths[k]);
            }
        }
        assert forall|k: int| 0 <= k < critical_index(nodes, paths) implies path_duration(
            nodes,
            #[trigger] paths[k],
        ) < path_duration(nodes, paths[critical_index(nodes, paths)]) by {
            if k < front.len() {
                assert(front[k] == paths[k]);
            }
        }
    }
}

/// The position of the first path of greatest duration.
pub fn critical_path(graph: &FlowGraph, paths: &Vec<Vec<u32>>) -> (c: usize)
    requires
        paths@.len() > 0,
    ensures
        c == critical_index(graph.nodes(), routes(paths@)),
        c < paths@.len(),
{
    let mut best: usize = 0;
    let mut longest = path_duration_of(graph, &paths[0]);
    let mut i: usize = 1;
    proof {
        assert(routes(paths@).take(1).len() == 1);
    }
    while i < paths.len()
        invariant
            1 <= i <= paths.len(),
            best < i,
            best == critical_index(graph.nodes(), routes(paths@).take(i as int)),
            longest == path_duration(graph.nodes(), paths@[best as int]@),
        decreases paths.len() - i,
    {
        let d = path_duration_of(graph, &paths[i]);
        proof {
            let next = routes(paths@).take(i + 1);
            assert(next.drop_last() =~= routes(paths@).take(i as int));
            assert(next.last() == paths@[i as int]@);
            assert(next[best as int] == paths@[best as int]@);
        }
        if d > longest {
            best = i;
            longest = d;
        }
        i += 1;
    }
    assert(routes(paths@).take(i as int) =~= routes(paths@));
    best
}

/// Whether `k` connects two different nodes of `path` that do not follow one
/// another on it, the pair of its first and its last node apart.
pub open spec fn is_shortcut(path: Seq<u32>, k: (u32, u32)) -> bool {
    exists|i: int, j: int| #[trigger] chord(path, i, j) && path[i] == k.0 && path[j] == k.1
}

/// Whether the places `i` and `j` of `path` are two different places that do
/// not follow one another, the first and the last place apart.
pub open spec fn chord(path: Seq<u32>, i: int, j: int) -> bool {
    &&& 0 <= i < path.len()
    &&& 0 <= j < path.len()
    &&& i != j
    &&& j != i + 1
    &&& !(i == 0 && j == path.len() - 1)
}

/// The edges that are no shortcut of `path`.
pub open spec fn edges_along(edges: Map<(u32, u32), u64>, path: Seq<u32>) -> Map<(u32, u32), u64> {
    Map::new(|k: (u32, u32)| edges.contains_key(k) && !is_shortcut(path, k), |k: (u32, u32)| edges[k])
}

/// Whether the chord at places `a`, `b` comes before the place `(i, j)` when
/// the pairs of places are walked row by row.
pub open spec fn chord_before(path: Seq<u32>, a: int, b: int, i: int, j: int) -> bool {
    chord(path, a, b) && (a < i || (a == i && b < j))
}

/// The edges that are no shortcut of `path` among the pairs of places before
/// `(i, j)`.
pub open spec fn edges_along_upto(edges: Map<(u32, u32), u64>, path: Seq<u32>, i: int, j: int) -> Map<
    (u32, u32),
    u64,
> {
    Map::new(
        |k: (u32, u32)|
            edges.contains_key(k) && !(exists|a: int, b: int| #[trigger]
                chord_before(path, a, b, i, j) && path[a] == k.0 && path[b] == k.1),
        |k: (u32, u32)| edges[k],
    )
}

/// Removes every shortcut of `path` from the graph.
pub fn remove_shortcuts(graph: &mut FlowGraph, path: &Vec<u32>)
    requires
        old(graph).wf(),
    ensures
        final(graph).wf(),
        final(graph).nodes() == old(graph).nodes(),
        final(graph).edges() == edges_along(old(graph).edges(), path@),
{
    let ghost edges0 = graph.edges();
    let n = path.len();
    let mut i: usize = 0;
    proof {
        assert(graph.edges() =~= edges_along_upto(edges0, path@, 0, 0));
    }
    while i < n
        invariant
            0 <= i <= n,
            n == path.len(),
            graph.wf(),
            graph.nodes() == old(graph).nodes(),
            graph.edges() == edges_along_upto(edges0, path@, i as int, 0),
        decreases n - i,
    {
        let mut j: usize = 0;
        while j < n
            invariant
                0 <= i < n,
                0 <= j <= n,
                n == path.len(),
                graph.wf(),
                graph.nodes() == old(graph).nodes(),
                graph.edges() == edges_along_upto(edges0, path@, i as int, j as int),
            decreases n - j,
        {
            let ghost before = graph.edges();
            if i != j && !(j > 0 && j - 1 == i) && !(i == 0 && j == n - 1) {
                graph.remove_edge(path[i], path[j]);
                proof {
                    assert(chord(path@, i as int, j as int));
                    assert(chord_before(path@, i as int, j as int, i as int, j + 1));
                    assert forall|k: (u32, u32)|
                        before.remove((path@[i as int], path@[j as int])).contains_key(k)
                            <==> edges_along_upto(edges0, path@, i as int, j + 1).contains_key(
                            k,
                        ) by {
                        if exists|a: int, b: int| #[trigger]
                            chord_before(path@, a, b, i as int, j + 1) && path@[a] == k.0
                                && path@[b] == k.1 {
                            let (a, b) = choose|a: int, b: int| #[trigger]
                                chord_before(path@, a, b, i as int, j + 1) && path@[a] == k.0
                                    && path@[b] == k.1;
                            if !(a == i && b == j) {
                                assert(chord_before(path@, a, b, i as int, j as int));
                            }
                        }
                        if exists|a: int, b: int| #[trigger]
                            chord_before(path@, a, b, i as int, j as int) && path@[a] == k.0
                                && path@[b] == k.1 {
                            let (a, b) = choose|a: int, b: int| #[trigger]
                                chord_before(path@, a, b, i as int, j as int) && path@[a] == k.0
                                    && path@[b] == k.1;
                            assert(chord_before(path@, a, b, i as int, j + 1));
                        }
                    }
                    assert(graph.edges() =~= edges_along_upto(edges0, path@, i as int, j + 1));
                }
            } else {
                proof {
                    assert(!chord(path@, i as int, j as int));
                    assert forall|k: (u32, u32)|
                        before.contains_key(k) <==> edges_along_upto(
                            edges0,
                            path@,
                            i as int,
                            j + 1,
                        ).contains_key(k) by {
                        if exists|a: int, b: int| #[trigger]
                            chord_before(path@, a, b, i as int, j + 1) && path@[a] == k.0
                                && path@[b] == k.1 {
                            let (a, b) = choose|a: int, b: int| #[trigger]
                                chord_before(path@, a, b, i as int, j + 1) && path@[a] == k.0
                                    && path@[b] == k.1;
                            assert(chord_before(path@, a, b, i as int, j as int));
                        }
                        if exists|a: int, b: int| #[trigger]
                            chord_before(path@, a, b, i as int, j as int) && path@[a] == k.0
                                && path@[b] == k.1 {
                            let (a, b) = choose|a: int, b: int| #[trigger]
                                chord_before(path@, a, b, i as int, j as int) && path@[a] == k.0
                                    && path@[b] == k.1;
                            assert(chord_before(path@, a, b, i as int, j + 1));
                        }
                    }
                    assert(graph.edges() =~= edges_along_upto(edges0, path@, i as int, j + 1));
                }
            }
            j += 1;
        }
        proof {
            assert forall|k: (u32, u32)|
                edges_along_upto(edges0, path@, i as int, n as int).contains_key(k)
                    <==> edges_along_upto(edges0, path@, i + 1, 0).contains_key(k) by {
                if exists|a: int, b: int| #[trigger]
                    chord_before(path@, a, b, i as int, n as int) && path@[a] == k.0 && path@[b]
                        == k.1 {
                    let (a, b) = choose|a: int, b: int| #[trigger]
                        chord_before(path@, a, b, i as int, n as int) && path@[a] == k.0
                            && path@[b] == k.1;
                    assert(chord_before(path@, a, b, i + 1, 0));
                }
                if exists|a: int, b: int| #[trigger]
                    chord_before(path@, a, b, i + 1, 0) && path@[a] == k.0 && path@[b] == k.1 {
                    let (a, b) = choose|a: int, b: int| #[trigger]
                        chord_before(path@, a, b, i + 1, 0) && path@[a] == k.0 && path@[b] == k.1;
                    assert(chord_before(path@, a, b, i as int, n as int));
                }
            }
            assert(edges_along_upto(edges0, path@, i as int, n as int) =~= edges_along_upto(
                edges0,
                path@,
                i + 1,
                0,
            ));
        }
        i += 1;
    }
    proof {
        assert forall|k: (u32, u32)|
            edges_along_upto(edges0, path@, n as int, 0).contains_key(k) <==> edges_along(
                edges0,
                path@,
            ).contains_key(k) by {
            if exists|a: int, b: int| #[trigger]
                chord_before(path@, a, b, n as int, 0) && path@[a] == k.0 && path@[b] == k.1 {
                let (a, b) = choose|a: int, b: int| #[trigger]
                    chord_before(path@, a, b, n as int, 0) && path@[a] == k.0 && path@[b] == k.1;
                assert(chord(path@, a, b));
            }
            if is_shortcut(path@, k) {
                let (a, b) = choose|a: int, b: int| #[trigger]
                    chord(path@, a, b) && path@[a] == k.0 && path@[b] == k.1;
                assert(chord_before(path@, a, b, n as int, 0));
            }
        }
        assert(edges_along_upto(edges0, path@, n as int, 0) =~= edges_along(edges0, path@));
    }
}

/// The nodes after only the critical path of `paths` was kept.
pub open spec fn resolved_nodes(nodes: Map<u32, NodeView>, paths: Seq<Seq<u32>>) -> Map<
    u32,
    NodeView,
> {
    nodes_outside(nodes, interior_besides(paths, paths[critical_index(nodes, paths)]))
}

/// The edges after only the critical path of `paths` was kept.
pub open spec fn resolved_edges(
    nodes: Map<u32, NodeView>,
    edges: Map<(u32, u32), u64>,
    paths: Seq<Seq<u32>>,
) -> Map<(u32, u32), u64> {
    edges_along(
        edges_outside(edges, interior_besides(paths, paths[critical_index(nodes, paths)])),
        paths[critical_index(nodes, paths)],
    )
}

/// Keeps of the listed paths only the first of greatest duration: the nodes
/// that lie strictly between the ends of another path and not on that one
/// leave the graph with their edges, and so do the shortcuts between the
/// nodes of the path that stays. Returns the position of that path.
pub fn keep_critical_path(graph: &mut FlowGraph, paths: &Vec<Vec<u32>>) -> (c: usize)
    requires
        old(graph).wf(),
        paths@.len() > 0,
    ensures
        final(graph).wf(),
        c == critical_index(old(graph).nodes(), routes(paths@)),
        final(graph).nodes() == resolved_nodes(old(graph).nodes(), routes(paths@)),
        final(graph).edges() == resolved_edges(
            old(graph).nodes(),
            old(graph).edges(),
            routes(paths@),
        ),
{
    let c = critical_path(graph, paths);
    remove_interior(graph, paths, &paths[c]);
    remove_shortcuts(graph, &paths[c]);
    c
}

/// The places of a path between two different nodes hold different nodes.
proof fn lemma_route_places(arcs: Set<(u32, u32)>, from: u32, to: u32, max: nat, path: Seq<u32>, a: int, b: int)
    requires
        from != to,
        is_route(arcs, from, to, 1, max, path),
        0 <= a < path.len(),
        0 <= b < path.len(),
        path[a] == path[b],
    ensures
        a == b,
{
    let last = path.len() - 1;
    if a != b {
        let (lo, hi) = if a < b {
            (a, b)
        } else {
            (b, a)
        };
        if hi < last {
            assert(path[lo] != path[hi]);
        } else if lo == 0 {
            assert(path[0] == from && path[last] == to);
        } else {
            assert(path[lo] != to);
        }
    }
}

/// A path that is left after only the critical path was kept runs along the
/// critical path, place by place.
proof fn lemma_runs_along(
    nodes: Map<u32, NodeView>,
    edges: Map<(u32, u32), u64>,
    from: u32,
    to: u32,
    max: nat,
    paths: Seq<Seq<u32>>,
    q: Seq<u32>,
    i: int,
)
    requires
        from != to,
        paths.len() > 0,
        enumerates(edges.dom(), from, to, 1, max, paths),
        is_route(resolved_edges(nodes, edges, paths).dom(), from, to, 1, max, q),
        0 <= i < q.len(),
    ensures
        i < paths[critical_index(nodes, paths)].len(),
        q[i] == paths[critical_index(nodes, paths)][i],
    decreases i,
{
    lemma_critical_index(nodes, paths);
    let c = critical_index(nodes, paths);
    let kept = paths[c];
    let after = resolved_edges(nodes, edges, paths);
    let gone = interior_besides(paths, kept);
    assert(is_route(edges.dom(), from, to, 1, max, kept));
    if i > 0 {
        lemma_runs_along(nodes, edges, from, to, max, paths, q, i - 1);
        let h = i - 1;
        assert(after.dom().contains((q[h], q[h + 1])));
        assert(!gone.contains(q[i]));
        assert(!is_shortcut(kept, (q[h], q[i])));
        // the path is one of those listed
        assert(is_route(edges.dom(), from, to, 1, max, q)) by {
            assert forall|k: int| 0 <= k < q.len() - 1 implies #[trigger] edges.dom().contains(
                (q[k], q[k + 1]),
            ) by {
                assert(after.dom().contains((q[k], q[k + 1])));
            }
        }
        let at = choose|k: int| 0 <= k < paths.len() && #[trigger] paths[k] == q;
        // the node at place `i` lies on the critical path
        let b = if i == q.len() - 1 {
            kept.len() - 1
        } else {
            assert(interior(paths).contains(q[i])) by {
                assert(paths[at][i] == q[i]);
            }
            assert(kept.contains(q[i]));
            choose|b: int| 0 <= b < kept.len() && kept[b] == q[i]
        };
        assert(0 <= b < kept.len() && kept[b] == q[i]);
        assert(kept[h] == q[h]);
        assert(!chord(kept, h, b));
        if b == h {
            if i < q.len() - 1 {
                assert(q[h] != q[i]);
            } else if h == 0 {
                assert(q[0] == from && q[i] == to);
            } else {
                assert(q[h] != to);
            }
        }
        if h == 0 && b == kept.len() - 1 && b != 1 {
            assert(q[1] == to);
            if q.len() > 2 {
                assert(q[1] != to);
            }
        }
        assert(b == h + 1);
    } else {
        assert(q[0] == from && kept[0] == from);
    }
}

/// Where the paths between two nodes run concurrently, the parallel rule leaves
/// one path between them: the first of greatest duration.
pub proof fn lemma_only_critical_path_left(
    nodes: Map<u32, NodeView>,
    edges: Map<(u32, u32), u64>,
    from: u32,
    to: u32,
    max: nat,
    paths: Seq<Seq<u32>>,
)
    requires
        from != to,
        exceeds_one(mass(edges, paths)),
        enumerates(edges.dom(), from, to, 1, max, paths),
    ensures
        ({
            let kept = paths[critical_index(nodes, paths)];
            let after = resolved_edges(nodes, edges, paths);
            &&& 0 <= critical_index(nodes, paths) < paths.len()
            &&& forall|k: int|
                0 <= k < paths.len() ==> path_duration(nodes, #[trigger] paths[k]) <= path_duration(
                    nodes,
                    kept,
                )
            &&& is_route(after.dom(), from, to, 1, max, kept)
            &&& forall|q: Seq<u32>| is_route(after.dom(), from, to, 1, max, q) ==> q == kept
        }),
{
    assert(paths.len() > 0) by {
        if paths.len() == 0 {
            assert(mass(edges, paths) == 0);
        }
    }
    lemma_critical_index(nodes, paths);
    let c = critical_index(nodes, paths);
    let kept = paths[c];
    let after = resolved_edges(nodes, edges, paths);
    let gone = interior_besides(paths, kept);
    assert(is_route(edges.dom(), from, to, 1, max, kept));
    assert forall|i: int| 0 <= i < kept.len() - 1 implies #[trigger] after.dom().contains(
        (kept[i], kept[i + 1]),
    ) by {
        assert(edges.dom().contains((kept[i], kept[i + 1])));
        assert(kept.contains(kept[i]) && kept.contains(kept[i + 1]));
        if is_shortcut(kept, (kept[i], kept[i + 1])) {
            let (a, b) = choose|a: int, b: int| #[trigger]
                chord(kept, a, b) && kept[a] == kept[i] && kept[b] == kept[i + 1];
            lemma_route_places(edges.dom(), from, to, max, kept, a, i);
            lemma_route_places(edges.dom(), from, to, max, kept, b, i + 1);
        }
    }
    assert forall|q: Seq<u32>| is_route(after.dom(), from, to, 1, max, q) implies q == kept by {
        assert forall|i: int| 0 <= i < q.len() implies i < kept.len() && q[i] == kept[i] by {
            lemma_runs_along(nodes, edges, from, to, max, paths, q, i);
        }
        let end = q.len() - 1;
        assert(kept[end] == to);
        lemma_route_places(edges.dom(), from, to, max, kept, end, kept.len() - 1);
        assert(q =~= kept);
    }
}

} // verus!

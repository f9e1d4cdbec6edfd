//! Merging the alternatives between two nodes into one branch node.

use crate::flow::FlowGraph;
use crate::node::{
    alternatives_view, is_one, lemma_alternatives_view, product, product_of, sum, sum_of, Node,
    NodeView, ONE,
};
use crate::paths::{
    lemma_mass_is_total, mass, path_probability, path_probability_of, routes, total_probability,
};
use crate::store::is_route;
use vstd::prelude::*;

verus! {

/// The nodes that lie on some path of the list strictly between its ends.
pub open spec fn interior(paths: Seq<Seq<u32>>) -> Set<u32> {
    Set::new(
        |x: u32|
            exists|i: int, j: int|
                0 <= i < paths.len() && 1 <= j < paths[i].len() - 1 && #[trigger] paths[i][j] == x,
    )
}

/// The nodes that are not in `gone`.
pub open spec fn nodes_outside(nodes: Map<u32, NodeView>, gone: Set<u32>) -> Map<u32, NodeView> {
    Map::new(|n: u32| nodes.contains_key(n) && !gone.contains(n), |n: u32| nodes[n])
}

/// The edges that neither start nor end at a node in `gone`.
pub open spec fn edges_outside(edges: Map<(u32, u32), u64>, gone: Set<u32>) -> Map<
    (u32, u32),
    u64,
> {
    Map::new(
        |k: (u32, u32)| edges.contains_key(k) && !gone.contains(k.0) && !gone.contains(k.1),
        |k: (u32, u32)| edges[k],
    )
}

/// Whether some group is that of node `x`.
pub open spec fn has_group(groups: Seq<(u32, u64)>, x: u32) -> bool {
    exists|i: int| 0 <= i < groups.len() && (#[trigger] groups[i]).0 == x
}

/// The position of the first group of node `x`.
pub open spec fn group_position(groups: Seq<(u32, u64)>, x: u32) -> int {
    choose|i: int|
        0 <= i < groups.len() && (#[trigger] groups[i]).0 == x && forall|k: int|
            0 <= k < i ==> (#[trigger] groups[k]).0 != x
}

/// The groups after a path through `x` of probability `p` was counted: the
/// probability goes to the group of `x`, or to a new last group.
pub open spec fn with_path(groups: Seq<(u32, u64)>, x: u32, p: u64) -> Seq<(u32, u64)> {
    if has_group(groups, x) {
        let i = group_position(groups, x);
        groups.update(i, (x, sum(groups[i].1, p)))
    } else {
        groups.push((x, p))
    }
}

/// The first nodes after the start of the paths, in the order in which the
/// paths first reach them, each with the summed probability of its paths.
pub open spec fn grouped(edges: Map<(u32, u32), u64>, paths: Seq<Seq<u32>>) -> Seq<(u32, u64)>
    decreases paths.len(),
{
    if paths.len() == 0 {
        Seq::empty()
    } else {
        with_path(
            grouped(edges, paths.drop_last()),
            paths.last()[1],
            path_probability(edges, paths.last()),
        )
    }
}

/// The alternatives that a node contributes to a branch when it is reached
/// with probability `total`: the node itself, or, for a branch node, its own
/// alternatives, each with its probability times `total`.
pub open spec fn expanded(node: NodeView, total: u64) -> Seq<(NodeView, u64)> {
    match node {
        NodeView::B(alts) => Seq::new(alts.len(), |i: int| (alts[i].0, product(alts[i].1, total))),
        other => seq![(other, total)],
    }
}

/// The alternatives of the branch node that stands for the groups.
pub open spec fn alternatives(nodes: Map<u32, NodeView>, groups: Seq<(u32, u64)>) -> Seq<
    (NodeView, u64),
>
    decreases groups.len(),
{
    if groups.len() == 0 {
        Seq::empty()
    } else {
        alternatives(nodes, groups.drop_last()) + expanded(
            nodes[groups.last().0],
            groups.last().1,
        )
    }
}

/// No two groups are those of the same node.
pub open spec fn distinct_groups(groups: Seq<(u32, u64)>) -> bool {
    forall|i: int, j: int|
        0 <= i < j < groups.len() ==> (#[trigger] groups[i]).0 != (#[trigger] groups[j]).0
}

/// Counting a path keeps the groups distinct and adds at most the path's
/// node to the nodes that have a group.
pub proof fn lemma_with_path(groups: Seq<(u32, u64)>, x: u32, p: u64)
    requires
        distinct_groups(groups),
    ensures
        distinct_groups(with_path(groups, x, p)),
        forall|y: u32| has_group(with_path(groups, x, p), y) <==> (has_group(groups, y) || y == x),
{
    let after = with_path(groups, x, p);
    if has_group(groups, x) {
        let w = choose|i: int| 0 <= i < groups.len() && (#[trigger] groups[i]).0 == x;
        assert(forall|k: int| 0 <= k < w ==> (#[trigger] groups[k]).0 != x);
        let i = group_position(groups, x);
        assert forall|y: u32| has_group(after, y) <==> (has_group(groups, y) || y == x) by {
            if has_group(after, y) {
                let k = choose|k: int| 0 <= k < after.len() && (#[trigger] after[k]).0 == y;
                assert(groups[k].0 == y);
            }
            if has_group(groups, y) {
                let k = choose|k: int| 0 <= k < groups.len() && (#[trigger] groups[k]).0 == y;
                assert(after[k].0 == y);
            }
            if y == x {
                assert(after[i].0 == x);
            }
        }
        assert forall|a: int, b: int| 0 <= a < b < after.len() implies (#[trigger] after[a]).0 != (
        #[trigger] after[b]).0 by {
            assert(groups[a].0 != groups[b].0);
        }
    } else {
        assert forall|y: u32| has_group(after, y) <==> (has_group(groups, y) || y == x) by {
            if has_group(after, y) {
                let k = choose|k: int| 0 <= k < after.len() && (#[trigger] after[k]).0 == y;
                if k < groups.len() {
                    assert(groups[k].0 == y);
                }
            }
            if has_group(groups, y) {
                let k = choose|k: int| 0 <= k < groups.len() && (#[trigger] groups[k]).0 == y;
                assert(after[k].0 == y);
            }
            if y == x {
                assert(after[groups.len() as int].0 == x);
            }
        }
        assert forall|a: int, b: int| 0 <= a < b < after.len() implies (#[trigger] after[a]).0 != (
        #[trigger] after[b]).0 by {
            if b < groups.len() {
                assert(groups[a].0 != groups[b].0);
            } else {
                assert(groups[a].0 != x);
            }
        }
    }
}

/// The groups of a list of paths are distinct, and a node has a group exactly
/// when it is the first node after the start of some path.
pub proof fn lemma_grouped(edges: Map<(u32, u32), u64>, paths: Seq<Seq<u32>>)
    ensures
        distinct_groups(grouped(edges, paths)),
        forall|y: u32|
            has_group(grouped(edges, paths), y) <==> exists|i: int|
                0 <= i < paths.len() && (#[trigger] paths[i])[1] == y,
    decreases paths.len(),
{
    if paths.len() == 0 {
        assert(grouped(edges, paths) =~= Seq::<(u32, u64)>::empty());
    } else {
        let front = paths.drop_last();
        lemma_grouped(edges, front);
        let x = paths.last()[1];
        let p = path_probability(edges, paths.last());
        lemma_with_path(grouped(edges, front), x, p);
        assert(grouped(edges, paths) == with_path(grouped(edges, front), x, p));
        assert forall|y: u32|
            has_group(grouped(edges, paths), y) <==> exists|i: int|
                0 <= i < paths.len() && (#[trigger] paths[i])[1] == y by {
            if has_group(grouped(edges, front), y) {
                let i = choose|i: int| 0 <= i < front.len() && (#[trigger] front[i])[1] == y;
                assert(paths[i][1] == y);
            }
            if y == x {
                assert(paths[paths.len() - 1][1] == y);
            }
            if exists|i: int| 0 <= i < paths.len() && (#[trigger] paths[i])[1] == y {
                let i = choose|i: int| 0 <= i < paths.len() && (#[trigger] paths[i])[1] == y;
                if i < front.len() {
                    assert(front[i][1] == y);
                }
            }
        }
    }
}

/// Groups the paths by the first node after their start.
pub fn group_paths(graph: &FlowGraph, paths: &Vec<Vec<u32>>) -> (r: Vec<(u32, u64)>)
    requires
        graph.wf(),
        forall|k: int| 0 <= k < paths@.len() ==> (#[trigger] paths@[k]).len() >= 2,
    ensures
        r@ == grouped(graph.edges(), routes(paths@)),
{
    let mut groups: Vec<(u32, u64)> = Vec::new();
    let mut i: usize = 0;
    proof {
        assert(routes(paths@).take(0) =~= Seq::<Seq<u32>>::empty());
    }
    while i < paths.len()
        invariant
            0 <= i <= paths.len(),
            graph.wf(),
            forall|k: int| 0 <= k < paths@.len() ==> (#[trigger] paths@[k]).len() >= 2,
            groups@ == grouped(graph.edges(), routes(paths@).take(i as int)),
        decreases paths.len() - i,
    {
        let x = paths[i][1];
        let p = path_probability_of(graph, &paths[i]);
        let ghost before = groups@;
        proof {
            let next = routes(paths@).take(i + 1);
            assert(next.drop_last() =~= routes(paths@).take(i as int));
            assert(next.last() == paths@[i as int]@);
        }
        let mut j: usize = 0;
        let mut found = false;
        while j < groups.len() && !found
            invariant
                0 <= j <= groups.len(),
                groups@ == before,
                !found ==> forall|k: int| 0 <= k < j ==> (#[trigger] groups@[k]).0 != x,
                found ==> j < groups.len() && groups@[j as int].0 == x && forall|k: int|
                    0 <= k < j ==> (#[trigger] groups@[k]).0 != x,
            decreases groups.len() - j + (if found { 0int } else { 1int }),
        {
            if groups[j].0 == x {
                found = true;
            } else {
                j += 1;
            }
        }
        if found {
            let total = sum_of(groups[j].1, p);
            groups.set(j, (x, total));
            proof {
                assert(has_group(before, x));
                let pos = group_position(before, x);
                assert(pos == j) by {
                    if pos < j {
                        assert(before[pos].0 != x);
                    }
                    if j < pos {
                        assert(before[j as int].0 != x);
                    }
                }
            }
        } else {
            groups.push((x, p));
            proof {
                assert(!has_group(before, x));
            }
        }
        i += 1;
    }
    assert(routes(paths@).take(i as int) =~= routes(paths@));
    groups
}

/// The nodes that have a group.
pub open spec fn group_nodes(groups: Seq<(u32, u64)>) -> Set<u32> {
    Set::new(|x: u32| has_group(groups, x))
}

/// Appends to `out` what `node` contributes to a branch when it is reached
/// with probability `total`.
pub fn expand_into(out: &mut Vec<(Node, u64)>, node: Node, total: u64)
    ensures
        alternatives_view(final(out)@) == alternatives_view(old(out)@) + expanded(node@, total),
{
    let ghost start = out@;
    proof {
        lemma_alternatives_view(start);
    }
    match node {
        Node::B(inner) => {
            let ghost orig = inner@;
            let mut rest = inner;
            proof {
                lemma_alternatives_view(orig);
            }
            while rest.len() > 0
                invariant
                    rest@.len() <= orig.len(),
                    rest@ == orig.skip(orig.len() - rest@.len()),
                    out@.len() == start.len() + orig.len() - rest@.len(),
                    forall|k: int| 0 <= k < start.len() ==> #[trigger] out@[k] == start[k],
                    forall|k: int|
                        0 <= k < orig.len() - rest@.len() ==> (#[trigger] out@[start.len() + k]).0@
                            == orig[k].0@ && out@[start.len() + k].1 == product(orig[k].1, total),
                decreases rest.len(),
            {
                let ghost done = orig.len() - rest@.len();
                let (alt, q) = rest.remove(0);
                assert(rest@ =~= orig.skip(done + 1));
                out.push((alt, product_of(q, total)));
            }
            proof {
                lemma_alternatives_view(out@);
                let whole = NodeView::B(alternatives_view(orig));
                assert(node@ == whole);
                let added = expanded(whole, total);
                let both = alternatives_view(start) + added;
                assert(added.len() == orig.len());
                assert(rest@.len() == 0);
                assert forall|k: int| 0 <= k < both.len() implies #[trigger] alternatives_view(
                    out@,
                )[k] == both[k] by {
                    if k >= start.len() {
                        let m = k - start.len();
                        assert(out@[start.len() + m].0@ == orig[m].0@);
                        assert(added[m] == (
                            alternatives_view(orig)[m].0,
                            product(alternatives_view(orig)[m].1, total),
                        ));
                    } else {
                        assert(out@[k] == start[k]);
                    }
                }
                assert(alternatives_view(out@) =~= both);
            }
        },
        Node::N(w) => {
            out.push((Node::N(w), total));
            proof {
                lemma_alternatives_view(out@);
                assert(alternatives_view(out@) =~= alternatives_view(start) + expanded(
                    NodeView::N(w),
                    total,
                ));
            }
        },
        Node::P(w) => {
            out.push((Node::P(w), total));
            proof {
                lemma_alternatives_view(out@);
                assert(alternatives_view(out@) =~= alternatives_view(start) + expanded(
                    NodeView::P(w),
                    total,
                ));
            }
        },
    }
}

/// One more group adds its node to the nodes that have a group.
proof fn lemma_group_nodes_step(groups: Seq<(u32, u64)>, i: int)
    requires
        0 <= i < groups.len(),
    ensures
        group_nodes(groups.take(i + 1)) =~= group_nodes(groups.take(i)).insert(groups[i].0),
{
    let grown = groups.take(i + 1);
    let front = groups.take(i);
    assert forall|x: u32| has_group(grown, x) <==> (has_group(front, x) || x == groups[i].0) by {
        if has_group(grown, x) {
            let k = choose|k: int| 0 <= k < grown.len() && (#[trigger] grown[k]).0 == x;
            if k < i {
                assert(front[k].0 == x);
            }
        }
        if has_group(front, x) {
            let k = choose|k: int| 0 <= k < front.len() && (#[trigger] front[k]).0 == x;
            assert(grown[k].0 == x);
        }
        if x == groups[i].0 {
            assert(grown[i].0 == x);
        }
    }
}

/// Takes the nodes of the groups out of the graph and returns the
/// alternatives that stand for them.
pub fn take_groups(graph: &mut FlowGraph, groups: &Vec<(u32, u64)>) -> (r: Vec<(Node, u64)>)
    requires
        old(graph).wf(),
        distinct_groups(groups@),
        forall|i: int|
            0 <= i < groups@.len() ==> old(graph).nodes().contains_key((#[trigger] groups@[i]).0),
    ensures
        final(graph).wf(),
        final(graph).nodes() == nodes_outside(old(graph).nodes(), group_nodes(groups@)),
        final(graph).edges() == edges_outside(old(graph).edges(), group_nodes(groups@)),
        alternatives_view(r@) == alternatives(old(graph).nodes(), groups@),
{
    let mut out: Vec<(Node, u64)> = Vec::new();
    let mut i: usize = 0;
    proof {
        assert(groups@.take(0) =~= Seq::<(u32, u64)>::empty());
        assert(group_nodes(groups@.take(0)) =~= Set::<u32>::empty());
        assert(graph.nodes() =~= nodes_outside(old(graph).nodes(), group_nodes(groups@.take(0))));
        assert(graph.edges() =~= edges_outside(old(graph).edges(), group_nodes(groups@.take(0))));
        assert(alternatives_view(out@) =~= Seq::<(NodeView, u64)>::empty());
    }
    while i < groups.len()
        invariant
            0 <= i <= groups.len(),
            graph.wf(),
            distinct_groups(groups@),
            forall|k: int|
                0 <= k < groups@.len() ==> old(graph).nodes().contains_key(
                    (#[trigger] groups@[k]).0,
                ),
            graph.nodes() == nodes_outside(
                old(graph).nodes(),
                group_nodes(groups@.take(i as int)),
            ),
            graph.edges() == edges_outside(
                old(graph).edges(),
                group_nodes(groups@.take(i as int)),
            ),
            alternatives_view(out@) == alternatives(old(graph).nodes(), groups@.take(i as int)),
        decreases groups.len() - i,
    {
        let x = groups[i].0;
        let total = groups[i].1;
        let ghost done = group_nodes(groups@.take(i as int));
        proof {
            lemma_group_nodes_step(groups@, i as int);
            assert(!done.contains(x)) by {
                if has_group(groups@.take(i as int), x) {
                    let k = choose|k: int|
                        0 <= k < i && (#[trigger] groups@.take(i as int)[k]).0 == x;
                    assert(groups@[k].0 != groups@[i as int].0);
                }
            }
            let next = groups@.take(i + 1);
            assert(next.drop_last() =~= groups@.take(i as int));
            assert(next.last() == groups@[i as int]);
        }
        let taken = graph.remove_node(x);
        proof {
            assert(graph.nodes() =~= nodes_outside(old(graph).nodes(), done.insert(x)));
            assert(graph.edges() =~= edges_outside(old(graph).edges(), done.insert(x)));
        }
        match taken {
            Some(node) => {
                expand_into(&mut out, node, total);
            },
            None => {},
        }
        i += 1;
    }
    assert(groups@.take(i as int) =~= groups@);
    out
}

/// Whether `x` occurs in `list`.
pub fn occurs(list: &Vec<u32>, x: u32) -> (r: bool)
    ensures
        r == list@.contains(x),
{
    let mut i: usize = 0;
    while i < list.len()
        invariant
            0 <= i <= list.len(),
            forall|k: int| 0 <= k < i ==> list@[k] != x,
        decreases list.len() - i,
    {
        if list[i] == x {
            return true;
        }
        i += 1;
    }
    false
}

/// The interior nodes of the paths that are not in `spare`.
pub open spec fn interior_besides(paths: Seq<Seq<u32>>, spare: Seq<u32>) -> Set<u32> {
    Set::new(|x: u32| interior(paths).contains(x) && !spare.contains(x))
}

/// The interior nodes met when the paths before the `i`-th and the first `j`
/// places of the `i`-th have been walked.
pub open spec fn interior_upto(paths: Seq<Seq<u32>>, i: int, j: int) -> Set<u32> {
    Set::new(
        |x: u32|
            exists|a: int, b: int|
                0 <= a < paths.len() && 1 <= b < paths[a].len() - 1 && (a < i || (a == i && b < j))
                    && #[trigger] paths[a][b] == x,
    )
}

/// Takes out of the graph every node that lies on a path of the list strictly
/// between its ends, but for the nodes in `spare`.
pub fn remove_interior(graph: &mut FlowGraph, paths: &Vec<Vec<u32>>, spare: &Vec<u32>)
    requires
        old(graph).wf(),
    ensures
        final(graph).wf(),
        final(graph).nodes() == nodes_outside(
            old(graph).nodes(),
            interior_besides(routes(paths@), spare@),
        ),
        final(graph).edges() == edges_outside(
            old(graph).edges(),
            interior_besides(routes(paths@), spare@),
        ),
{
    let ghost all = routes(paths@);
    let mut i: usize = 0;
    proof {
        let none = Set::new(|x: u32| interior_upto(all, 0, 0).contains(x) && !spare@.contains(x));
        assert(none =~= Set::<u32>::empty());
        assert(graph.nodes() =~= nodes_outside(old(graph).nodes(), none));
        assert(graph.edges() =~= edges_outside(old(graph).edges(), none));
    }
    while i < paths.len()
        invariant
            0 <= i <= paths.len(),
            all == routes(paths@),
            graph.wf(),
            graph.nodes() == nodes_outside(
                old(graph).nodes(),
                Set::new(|x: u32| interior_upto(all, i as int, 0).contains(x) && !spare@.contains(x)),
            ),
            graph.edges() == edges_outside(
                old(graph).edges(),
                Set::new(|x: u32| interior_upto(all, i as int, 0).contains(x) && !spare@.contains(x)),
            ),
        decreases paths.len() - i,
    {
        let path = &paths[i];
        let mut j: usize = 1;
        proof {
            assert(interior_upto(all, i as int, 1) =~= interior_upto(all, i as int, 0));
        }
        let last: usize = if path.len() >= 1 {
            path.len() - 1
        } else {
            0
        };
        while j < last
            invariant
                1 <= j,
                last == (if path.len() >= 1 {
                    path.len() - 1
                } else {
                    0
                }),
                0 <= i < paths.len(),
                all == routes(paths@),
                path@ == all[i as int],
                graph.wf(),
                graph.nodes() == nodes_outside(
                    old(graph).nodes(),
                    Set::new(
                        |x: u32| interior_upto(all, i as int, j as int).contains(x) && !spare@.contains(x),
                    ),
                ),
                graph.edges() == edges_outside(
                    old(graph).edges(),
                    Set::new(
                        |x: u32| interior_upto(all, i as int, j as int).contains(x) && !spare@.contains(x),
                    ),
                ),
            decreases last - j,
        {
            let x = path[j];
            let ghost done = Set::new(
                |y: u32| interior_upto(all, i as int, j as int).contains(y) && !spare@.contains(y),
            );
            let ghost next = Set::new(
                |y: u32| interior_upto(all, i as int, j + 1).contains(y) && !spare@.contains(y),
            );
            proof {
                assert(interior_upto(all, i as int, j + 1) =~= interior_upto(
                    all,
                    i as int,
                    j as int,
                ).insert(x)) by {
                    assert(all[i as int][j as int] == x);
                }
            }
            if !occurs(spare, x) {
                graph.remove_node(x);
                proof {
                    assert(next =~= done.insert(x));
                    assert(graph.nodes() =~= nodes_outside(old(graph).nodes(), next));
                    assert(graph.edges() =~= edges_outside(old(graph).edges(), next));
                }
            } else {
                proof {
                    assert(next =~= done);
                }
            }
            j += 1;
        }
        proof {
            assert(interior_upto(all, i + 1, 0) =~= interior_upto(all, i as int, j as int));
        }
        i += 1;
    }
    proof {
        assert(interior_upto(all, i as int, 0) =~= interior(all));
    }
}

/// `paths` is a non-empty list of paths from `from` to `to`, each through at
/// least one other node.
pub open spec fn joins(arcs: Set<(u32, u32)>, from: u32, to: u32, paths: Seq<Seq<u32>>) -> bool {
    &&& paths.len() > 0
    &&& forall|k: int|
        0 <= k < paths.len() ==> is_route(
            arcs,
            from,
            to,
            1,
            ((#[trigger] paths[k]).len() - 2) as nat,
            paths[k],
        )
}

/// The nodes after the paths were merged into the branch node `b`.
pub open spec fn merged_nodes(
    nodes: Map<u32, NodeView>,
    edges: Map<(u32, u32), u64>,
    paths: Seq<Seq<u32>>,
    b: u32,
) -> Map<u32, NodeView> {
    nodes_outside(nodes, interior(paths)).insert(
        b,
        NodeView::B(alternatives(nodes, grouped(edges, paths))),
    )
}

/// The edges after the paths from `from` to `to` were merged into the branch
/// node `b`.
pub open spec fn merged_edges(
    edges: Map<(u32, u32), u64>,
    paths: Seq<Seq<u32>>,
    from: u32,
    to: u32,
    b: u32,
) -> Map<(u32, u32), u64> {
    edges_outside(edges, interior(paths)).insert((from, b), ONE).insert((b, to), ONE)
}

/// Replaces the paths from `from` to `to` by one branch node, whose index is
/// returned. The nodes strictly between the ends of the paths leave the
/// graph with all their edges. The branch node holds one alternative for
/// each first node after `from`, in the order in which the paths reach them,
/// with the summed probability of the paths through it; where that node is
/// itself a branch node, its alternatives take its place, each with its
/// probability times that sum. The branch node is entered from `from` and
/// left towards `to` with probability one.
pub fn merge_paths(graph: &mut FlowGraph, from: u32, to: u32, paths: &Vec<Vec<u32>>) -> (b: u32)
    requires
        old(graph).wf(),
        from != to,
        joins(old(graph).edges().dom(), from, to, routes(paths@)),
    ensures
        final(graph).wf(),
        !nodes_outside(old(graph).nodes(), interior(routes(paths@))).contains_key(b),
        final(graph).nodes() == merged_nodes(
            old(graph).nodes(),
            old(graph).edges(),
            routes(paths@),
            b,
        ),
        final(graph).edges() == merged_edges(old(graph).edges(), routes(paths@), from, to, b),
{
    let ghost all = routes(paths@);
    let ghost nodes0 = graph.nodes();
    let ghost edges0 = graph.edges();
    proof {
        graph.lemma_wf();
        assert forall|k: int| 0 <= k < paths@.len() implies (#[trigger] paths@[k]).len() >= 2 by {
            assert(all[k] == paths@[k]@);
        }
    }
    let groups = group_paths(graph, paths);
    proof {
        lemma_grouped(edges0, all);
        assert forall|i: int| 0 <= i < groups@.len() implies nodes0.contains_key(
            (#[trigger] groups@[i]).0,
        ) by {
            let x = groups@[i].0;
            assert(has_group(groups@, x));
            let k = choose|k: int| 0 <= k < all.len() && (#[trigger] all[k])[1] == x;
            assert(is_route(edges0.dom(), from, to, 1, (all[k].len() - 2) as nat, all[k]));
            assert(edges0.dom().contains((all[k][0], all[k][0int + 1])));
            assert(edges0.contains_key((all[k][0], x)));
        }
    }
    let alts = take_groups(graph, &groups);
    let spare: Vec<u32> = Vec::new();
    remove_interior(graph, paths, &spare);
    let ghost gone = interior(all);
    proof {
        assert(interior_besides(all, spare@) =~= gone);
        assert forall|x: u32| group_nodes(groups@).contains(x) implies gone.contains(x) by {
            let k = choose|k: int| 0 <= k < all.len() && (#[trigger] all[k])[1] == x;
            assert(all[k][1] == x);
        }
        assert(graph.nodes() =~= nodes_outside(nodes0, gone));
        assert(graph.edges() =~= edges_outside(edges0, gone));
        // the ends stay
        let first = all[0];
        assert(is_route(edges0.dom(), from, to, 1, (first.len() - 2) as nat, first));
        assert(edges0.dom().contains((first[0], first[0int + 1])));
        assert(edges0.contains_key((from, first[1])));
        let n = first.len() - 1;
        assert(edges0.dom().contains((first[n - 1], first[n - 1 + 1])));
        assert(edges0.contains_key((first[n - 1], to)));
        assert(!gone.contains(from)) by {
            if gone.contains(from) {
                let (i, j) = choose|i: int, j: int|
                    0 <= i < all.len() && 1 <= j < all[i].len() - 1 && #[trigger] all[i][j] == from;
                assert(all[i][0] != all[i][j]);
            }
        }
        assert(!gone.contains(to));
        assert(gone.contains(first[1]));
        assert(gone.contains(first[n - 1]));
        // room for the branch node and its two edges
        assert(graph.nodes().dom().subset_of(nodes0.dom().remove(first[1])));
        vstd::set_lib::lemma_len_subset(graph.nodes().dom(), nodes0.dom().remove(first[1]));
        let e1 = (from, first[1]);
        let e2 = (first[n - 1], to);
        assert(e1 != e2);
        assert(graph.edges().dom().subset_of(edges0.dom().remove(e1).remove(e2)));
        vstd::set_lib::lemma_len_subset(graph.edges().dom(), edges0.dom().remove(e1).remove(e2));
    }
    let ghost held = alternatives(nodes0, grouped(edges0, all));
    let branch = Node::B(alts);
    proof {
        assert(branch@ == NodeView::B(alternatives_view(alts@)));
    }
    let b = graph.add_node(branch);
    proof {
        graph.lemma_wf();
    }
    graph.add_edge(from, b, ONE);
    proof {
        graph.lemma_wf();
    }
    graph.add_edge(b, to, ONE);
    b
}

/// The probabilities of the groups, added up.
pub open spec fn group_total(groups: Seq<(u32, u64)>) -> int
    decreases groups.len(),
{
    if groups.len() == 0 {
        0
    } else {
        group_total(groups.drop_last()) + groups.last().1
    }
}

/// The probabilities of the alternatives, added up.
pub open spec fn alternatives_total(alts: Seq<(NodeView, u64)>) -> int
    decreases alts.len(),
{
    if alts.len() == 0 {
        0
    } else {
        alternatives_total(alts.drop_last()) + alts.last().1
    }
}

/// A group holds no more than all groups together, and a changed group
/// changes the sum by as much.
proof fn lemma_group_total_update(groups: Seq<(u32, u64)>, i: int, entry: (u32, u64))
    requires
        0 <= i < groups.len(),
    ensures
        0 <= groups[i].1 <= group_total(groups),
        group_total(groups.update(i, entry)) == group_total(groups) - groups[i].1 + entry.1,
    decreases groups.len(),
{
    lemma_group_total_positive(groups.drop_last());
    if i == groups.len() - 1 {
        assert(groups.update(i, entry).drop_last() =~= groups.drop_last());
    } else {
        lemma_group_total_update(groups.drop_last(), i, entry);
        assert(groups.update(i, entry).drop_last() =~= groups.drop_last().update(i, entry));
    }
}

/// The sum of the groups is not negative.
proof fn lemma_group_total_positive(groups: Seq<(u32, u64)>)
    ensures
        group_total(groups) >= 0,
    decreases groups.len(),
{
    if groups.len() > 0 {
        lemma_group_total_positive(groups.drop_last());
    }
}

/// Counting a path adds its probability to the sum of the groups, as long as
/// the sum fits a `u64`.
proof fn lemma_with_path_total(groups: Seq<(u32, u64)>, x: u32, p: u64)
    requires
        group_total(groups) + p <= u64::MAX,
    ensures
        group_total(with_path(groups, x, p)) == group_total(groups) + p,
{
    if has_group(groups, x) {
        let w = choose|i: int| 0 <= i < groups.len() && (#[trigger] groups[i]).0 == x;
        lemma_first_group(groups, x, w);
        let i = group_position(groups, x);
        assert(0 <= i < groups.len());
        lemma_group_total_update(groups, i, (x, sum(groups[i].1, p)));
    } else {
        assert(groups.push((x, p)).drop_last() =~= groups);
    }
}

/// Where some group is that of `x`, there is a first one.
proof fn lemma_first_group(groups: Seq<(u32, u64)>, x: u32, w: int)
    requires
        0 <= w < groups.len(),
        groups[w].0 == x,
    ensures
        exists|i: int|
            0 <= i < groups.len() && (#[trigger] groups[i]).0 == x && forall|k: int|
                0 <= k < i ==> (#[trigger] groups[k]).0 != x,
    decreases w,
{
    if exists|k: int| 0 <= k < w && (#[trigger] groups[k]).0 == x {
        let k = choose|k: int| 0 <= k < w && (#[trigger] groups[k]).0 == x;
        lemma_first_group(groups, x, k);
    } else {
        assert(0 <= w < groups.len() && groups[w].0 == x && forall|k: int|
            0 <= k < w ==> (#[trigger] groups[k]).0 != x);
    }
}

/// As long as the probabilities of the paths together fit a `u64`, grouping
/// loses nothing: the groups add up to the paths.
pub proof fn lemma_groups_keep_total(edges: Map<(u32, u32), u64>, paths: Seq<Seq<u32>>)
    requires
        total_probability(edges, paths) <= u64::MAX,
    ensures
        group_total(grouped(edges, paths)) == total_probability(edges, paths),
    decreases paths.len(),
{
    if paths.len() > 0 {
        let front = paths.drop_last();
        lemma_mass_is_total(edges, front);
        lemma_groups_keep_total(edges, front);
        lemma_with_path_total(
            grouped(edges, front),
            paths.last()[1],
            path_probability(edges, paths.last()),
        );
    }
}

/// The alternatives of groups whose nodes are no branch nodes carry the
/// probabilities of the groups.
pub proof fn lemma_alternatives_keep_total(nodes: Map<u32, NodeView>, groups: Seq<(u32, u64)>)
    requires
        forall|i: int| 0 <= i < groups.len() ==> !(nodes[(#[trigger] groups[i]).0] is B),
    ensures
        alternatives_total(alternatives(nodes, groups)) == group_total(groups),
    decreases groups.len(),
{
    if groups.len() > 0 {
        let front = groups.drop_last();
        assert forall|i: int| 0 <= i < front.len() implies !(nodes[(#[trigger] front[i]).0] is B) by {
            assert(front[i] == groups[i]);
        }
        lemma_alternatives_keep_total(nodes, front);
        let last = groups.last();
        assert(groups[groups.len() - 1] == last);
        let added = expanded(nodes[last.0], last.1);
        assert(added =~= seq![(nodes[last.0], last.1)]);
        let all = alternatives(nodes, groups);
        assert(all == alternatives(nodes, front) + added);
        assert(all.drop_last() =~= alternatives(nodes, front));
        assert(all.last() == (nodes[last.0], last.1));
    }
}

/// The probabilities of the alternatives of a new branch node add up to one,
/// within the tolerance, where none of the merged paths begins with a branch
/// node.
pub proof fn lemma_branch_sums_to_one(
    nodes: Map<u32, NodeView>,
    edges: Map<(u32, u32), u64>,
    paths: Seq<Seq<u32>>,
)
    requires
        is_one(mass(edges, paths)),
        forall|i: int| 0 <= i < paths.len() ==> !(nodes[(#[trigger] paths[i])[1]] is B),
    ensures
        alternatives_total(alternatives(nodes, grouped(edges, paths))) == mass(edges, paths),
{
    lemma_mass_is_total(edges, paths);
    lemma_groups_keep_total(edges, paths);
    lemma_grouped(edges, paths);
    let groups = grouped(edges, paths);
    assert forall|i: int| 0 <= i < groups.len() implies !(nodes[(#[trigger] groups[i]).0] is B) by {
        assert(has_group(groups, groups[i].0));
        let k = choose|k: int| 0 <= k < paths.len() && (#[trigger] paths[k])[1] == groups[i].0;
    }
    lemma_alternatives_keep_total(nodes, groups);
}

} // verus!

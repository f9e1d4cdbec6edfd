//! The graph container behind a reduction graph: `petgraph`'s `StableGraph`,
//! its contents named as two maps, and one contract per method that the
//! library calls. Nothing in this file is proved: each contract restates what
//! the container's source shows.

use crate::node::{Node, NodeView};
use petgraph::algo::{all_simple_paths, is_cyclic_directed};
use petgraph::stable_graph::{EdgeIndex, NodeIndex, StableGraph};
use petgraph::Directed;
use vstd::prelude::*;

verus! {

/// `petgraph::stable_graph::StableGraph`, a graph that keeps the indices of
/// its nodes and edges when others are removed.
#[verifier::external_type_specification]
#[verifier::external_body]
#[verifier::reject_recursive_types(N)]
#[verifier::reject_recursive_types(E)]
#[verifier::reject_recursive_types(Ty)]
#[verifier::reject_recursive_types(Ix)]
pub struct ExStableGraph<N, E, Ty, Ix>(StableGraph<N, E, Ty, Ix>);

/// `petgraph::Directed`, the marker of graphs with directed edges.
#[verifier::external_type_specification]
#[verifier::external_body]
pub struct ExDirected(Directed);

/// One edge of the container: source, target and weight.
pub type Link = (u32, u32, u64);

/// The nodes that a container holds, by node index.
pub uninterp spec fn graph_nodes(g: StableGraph<Node, u64>) -> Map<u32, NodeView>;

/// The edges that a container holds, by edge index.
pub uninterp spec fn graph_links(g: StableGraph<Node, u64>) -> Map<u32, Link>;

/// Whether some edge leads from `a` to `b`.
pub open spec fn linked(links: Map<u32, Link>, a: u32, b: u32) -> bool {
    exists|e: u32| #[trigger] links.contains_key(e) && links[e].0 == a && links[e].1 == b
}

/// The ordered pairs of nodes that an edge connects.
pub open spec fn arcs(links: Map<u32, Link>) -> Set<(u32, u32)> {
    Set::new(|k: (u32, u32)| linked(links, k.0, k.1))
}

/// No two edges connect the same ordered pair of nodes.
pub open spec fn simple(links: Map<u32, Link>) -> bool {
    forall|e1: u32, e2: u32|
        #![trigger links.contains_key(e1), links.contains_key(e2)]
        links.contains_key(e1) && links.contains_key(e2) && links[e1].0 == links[e2].0
            && links[e1].1 == links[e2].1 ==> e1 == e2
}

/// `path` leads from `from` to `to` along edges, passes through at least `min`
/// and at most `max` nodes in between, repeats no node before its end, and
/// meets `to` only at its end (and at its start, where `from == to`).
pub open spec fn is_route(
    arcs: Set<(u32, u32)>,
    from: u32,
    to: u32,
    min: nat,
    max: nat,
    path: Seq<u32>,
) -> bool {
    &&& min + 2 <= path.len() <= max + 2
    &&& path[0] == from
    &&& path[path.len() - 1] == to
    &&& forall|i: int, j: int|
        0 <= i < j < path.len() - 1 ==> #[trigger] path[i] != #[trigger] path[j]
    &&& forall|i: int| 1 <= i < path.len() - 1 ==> #[trigger] path[i] != to
    &&& forall|i: int| 0 <= i < path.len() - 1 ==> #[trigger] arcs.contains((path[i], path[i + 1]))
}

/// Some walk of at least one edge returns to the node where it began.
pub open spec fn has_cycle(arcs: Set<(u32, u32)>) -> bool {
    exists|walk: Seq<u32>|
        walk.len() >= 2 && walk[0] == walk[walk.len() - 1] && forall|i: int|
            0 <= i < walk.len() - 1 ==> #[trigger] arcs.contains((walk[i], walk[i + 1]))
}

/// `StableGraph::new`: a container without nodes and edges.
#[verifier::external_body]
pub(crate) fn store_new() -> (g: StableGraph<Node, u64>)
    ensures
        graph_nodes(g) =~= Map::empty(),
        graph_links(g) =~= Map::empty(),
{
    StableGraph::new()
}

/// `StableGraph::node_count`: the number of nodes held.
#[verifier::external_body]
pub(crate) fn store_node_count(g: &StableGraph<Node, u64>) -> (n: usize)
    ensures
        graph_nodes(*g).dom().finite() ==> n == graph_nodes(*g).len(),
{
    g.node_count()
}

/// `StableGraph::edge_count`: the number of edges held.
#[verifier::external_body]
pub(crate) fn store_edge_count(g: &StableGraph<Node, u64>) -> (n: usize)
    ensures
        graph_links(*g).dom().finite() ==> n == graph_links(*g).len(),
{
    g.edge_count()
}

/// `StableGraph::add_node`: the node is stored under an index that was not in
/// use, which is returned; nothing else changes. The largest value of the
/// index type is never an index. The container panics when it already holds
/// as many nodes as its index type can count.
#[verifier::external_body]
pub(crate) fn store_add_node(g: &mut StableGraph<Node, u64>, node: Node) -> (n: u32)
    requires
        graph_nodes(*old(g)).dom().finite(),
        graph_nodes(*old(g)).len() < u32::MAX,
    ensures
        n < u32::MAX,
        !graph_nodes(*old(g)).contains_key(n),
        graph_nodes(*final(g)) == graph_nodes(*old(g)).insert(n, node@),
        graph_links(*final(g)) == graph_links(*old(g)),
{
    g.add_node(node).index() as u32
}

/// `StableGraph::add_edge`: a new edge from `a` to `b` is stored under an
/// index that was not in use, which is returned; edges that already connect
/// the two nodes stay. The largest value of the index type is never an index.
/// The container panics when an endpoint is missing or when it already holds
/// as many edges as its index type can count.
#[verifier::external_body]
pub(crate) fn store_add_edge(g: &mut StableGraph<Node, u64>, a: u32, b: u32, weight: u64) -> (e: u32)
    requires
        graph_nodes(*old(g)).contains_key(a),
        graph_nodes(*old(g)).contains_key(b),
        graph_links(*old(g)).dom().finite(),
        graph_links(*old(g)).len() < u32::MAX,
    ensures
        e < u32::MAX,
        !graph_links(*old(g)).contains_key(e),
        graph_links(*final(g)) == graph_links(*old(g)).insert(e, (a, b, weight)),
        graph_nodes(*final(g)) == graph_nodes(*old(g)),
{
    g.add_edge(NodeIndex::new(a as usize), NodeIndex::new(b as usize), weight).index() as u32
}

/// `StableGraph::find_edge`: the index of an edge from `a` to `b`, if there is
/// one.
#[verifier::external_body]
pub(crate) fn store_find_edge(g: &StableGraph<Node, u64>, a: u32, b: u32) -> (r: Option<u32>)
    ensures
        match r {
            Some(e) => graph_links(*g).contains_key(e) && graph_links(*g)[e].0 == a
                && graph_links(*g)[e].1 == b,
            None => !linked(graph_links(*g), a, b),
        },
{
    g.find_edge(NodeIndex::new(a as usize), NodeIndex::new(b as usize)).map(|e| e.index() as u32)
}

/// `StableGraph::edge_weight`: the weight of the edge with index `e`.
#[verifier::external_body]
pub(crate) fn store_edge_weight(g: &StableGraph<Node, u64>, e: u32) -> (r: Option<u64>)
    ensures
        r == (if graph_links(*g).contains_key(e) {
            Some(graph_links(*g)[e].2)
        } else {
            None
        }),
{
    g.edge_weight(EdgeIndex::new(e as usize)).copied()
}

/// Assignment through `StableGraph`'s index operator for edges: the edge
/// with index `e` gets the weight; its endpoints and all else stay. The
/// operator panics where there is no such edge.
#[verifier::external_body]
pub(crate) fn store_set_edge_weight(g: &mut StableGraph<Node, u64>, e: u32, weight: u64)
    requires
        graph_links(*old(g)).contains_key(e),
    ensures
        graph_links(*final(g)) == graph_links(*old(g)).insert(
            e,
            (graph_links(*old(g))[e].0, graph_links(*old(g))[e].1, weight),
        ),
        graph_nodes(*final(g)) == graph_nodes(*old(g)),
{
    g[EdgeIndex::new(e as usize)] = weight;
}

/// `StableGraph::remove_edge`: the edge with index `e` leaves and its weight
/// is returned; no other edge and no node changes.
#[verifier::external_body]
pub(crate) fn store_remove_edge(g: &mut StableGraph<Node, u64>, e: u32) -> (r: Option<u64>)
    ensures
        r == (if graph_links(*old(g)).contains_key(e) {
            Some(graph_links(*old(g))[e].2)
        } else {
            None
        }),
        graph_links(*final(g)) == graph_links(*old(g)).remove(e),
        graph_nodes(*final(g)) == graph_nodes(*old(g)),
{
    g.remove_edge(EdgeIndex::new(e as usize))
}

/// `StableGraph::remove_node`: the node with index `n` leaves, together with
/// every edge that starts or ends at it, and its value is returned. Where the
/// index names no node nothing changes.
#[verifier::external_body]
pub(crate) fn store_remove_node(g: &mut StableGraph<Node, u64>, n: u32) -> (r: Option<Node>)
    ensures
        match r {
            Some(node) => graph_nodes(*old(g)).contains_key(n) && node@ == graph_nodes(*old(g))[n],
            None => !graph_nodes(*old(g)).contains_key(n),
        },
        graph_nodes(*final(g)) == graph_nodes(*old(g)).remove(n),
        graph_links(*final(g)) == (if graph_nodes(*old(g)).contains_key(n) {
            Map::new(
                |e: u32|
                    graph_links(*old(g)).contains_key(e) && graph_links(*old(g))[e].0 != n
                        && graph_links(*old(g))[e].1 != n,
                |e: u32| graph_links(*old(g))[e],
            )
        } else {
            graph_links(*old(g))
        }),
{
    g.remove_node(NodeIndex::new(n as usize))
}

/// `StableGraph::node_weight`: the node with index `n`.
#[verifier::external_body]
pub(crate) fn store_node(g: &StableGraph<Node, u64>, n: u32) -> (r: Option<&Node>)
    ensures
        match r {
            Some(node) => graph_nodes(*g).contains_key(n) && node@ == graph_nodes(*g)[n],
            None => !graph_nodes(*g).contains_key(n),
        },
{
    g.node_weight(NodeIndex::new(n as usize))
}

/// Assignment through `StableGraph`'s index operator for nodes: the node
/// with index `n` is replaced by `node`; all else stays. The operator panics
/// where there is no such node.
#[verifier::external_body]
pub(crate) fn store_set_node(g: &mut StableGraph<Node, u64>, n: u32, node: Node)
    requires
        graph_nodes(*old(g)).contains_key(n),
    ensures
        graph_nodes(*final(g)) == graph_nodes(*old(g)).insert(n, node@),
        graph_links(*final(g)) == graph_links(*old(g)),
{
    g[NodeIndex::new(n as usize)] = node;
}

/// `StableGraph::node_indices`: the indices of all nodes, each once, in
/// ascending order.
#[verifier::external_body]
pub(crate) fn store_node_indices(g: &StableGraph<Node, u64>) -> (r: Vec<u32>)
    ensures
        forall|i: int, j: int| 0 <= i < j < r@.len() ==> r@[i] < r@[j],
        forall|n: u32| r@.contains(n) <==> graph_nodes(*g).contains_key(n),
{
    g.node_indices().map(|n| n.index() as u32).collect()
}

/// `StableGraph::neighbors`: the targets of the edges that start at `n`, one
/// entry for each edge.
#[verifier::external_body]
pub(crate) fn store_successors(g: &StableGraph<Node, u64>, n: u32) -> (r: Vec<u32>)
    ensures
        forall|b: u32| r@.contains(b) <==> linked(graph_links(*g), n, b),
        simple(graph_links(*g)) ==> r@.no_duplicates(),
{
    g.neighbors(NodeIndex::new(n as usize)).map(|b| b.index() as u32).collect()
}

/// `petgraph::algo::all_simple_paths`: every path from `from` to `to` with
/// between `min` and `max` nodes in between, in the order in which the search
/// finds them. Where no two edges connect the same pair of nodes, each path
/// comes once. The search adds one to both bounds, so neither may be the
/// largest `usize`.
#[verifier::external_body]
pub(crate) fn store_simple_paths(
    g: &StableGraph<Node, u64>,
    from: u32,
    to: u32,
    min: usize,
    max: usize,
) -> (r: Vec<Vec<u32>>)
    requires
        min < usize::MAX,
        max < usize::MAX,
    ensures
        forall|k: int|
            0 <= k < r@.len() ==> is_route(
                arcs(graph_links(*g)),
                from,
                to,
                min as nat,
                max as nat,
                (#[trigger] r@[k])@,
            ),
        forall|p: Seq<u32>|
            is_route(arcs(graph_links(*g)), from, to, min as nat, max as nat, p) ==> exists|k: int|
                0 <= k < r@.len() && (#[trigger] r@[k])@ == p,
        simple(graph_links(*g)) ==> forall|i: int, j: int|
            0 <= i < j < r@.len() ==> (#[trigger] r@[i])@ != (#[trigger] r@[j])@,
{
    all_simple_paths::<Vec<NodeIndex>, _>(
        g,
        NodeIndex::new(from as usize),
        NodeIndex::new(to as usize),
        min,
        Some(max),
    ).map(|p| p.into_iter().map(|n| n.index() as u32).collect()).collect()
}

/// `petgraph::algo::is_cyclic_directed`: whether the edges form a directed
/// cycle; an edge from a node to itself is one.
#[verifier::external_body]
pub(crate) fn store_is_cyclic(g: &StableGraph<Node, u64>) -> (r: bool)
    ensures
        r == has_cycle(arcs(graph_links(*g))),
{
    is_cyclic_directed(g)
}

} // verus!

//! The reduction graph: nodes with durations, and at most one weighted edge
//! for each ordered pair of nodes.

use crate::node::{Node, NodeView};
use crate::store::{
    arcs, graph_links, graph_nodes, has_cycle, is_route, linked, simple, store_add_edge,
    store_add_node, store_edge_count, store_edge_weight, store_find_edge, store_is_cyclic,
    store_new, store_node, store_node_count, store_node_indices,
    store_remove_edge, store_remove_node, store_set_edge_weight, store_set_node,
    store_simple_paths, store_successors, Link,
};
use petgraph::stable_graph::StableGraph;
use vstd::prelude::*;

verus! {

/// The index of an edge from `k.0` to `k.1`.
pub open spec fn arc_id(links: Map<u32, Link>, k: (u32, u32)) -> u32 {
    choose|e: u32| #[trigger] links.contains_key(e) && links[e].0 == k.0 && links[e].1 == k.1
}

/// The edge weights by ordered pair of nodes.
pub open spec fn weights(links: Map<u32, Link>) -> Map<(u32, u32), u64> {
    Map::new(|k: (u32, u32)| linked(links, k.0, k.1), |k: (u32, u32)| links[arc_id(links, k)].2)
}

/// In a simple graph an edge is the one that its pair of endpoints names.
pub proof fn lemma_weight_of_link(links: Map<u32, Link>, e: u32)
    requires
        simple(links),
        links.contains_key(e),
    ensures
        weights(links).contains_key((links[e].0, links[e].1)),
        arc_id(links, (links[e].0, links[e].1)) == e,
        weights(links)[(links[e].0, links[e].1)] == links[e].2,
{
    let k = (links[e].0, links[e].1);
    assert(linked(links, k.0, k.1));
    let f = arc_id(links, k);
    assert(links.contains_key(f) && links.contains_key(e));
}

/// Storing an edge, new or in place of the one between the same nodes, keeps
/// the graph simple and sets the weight of that pair.
pub proof fn lemma_store_link(links: Map<u32, Link>, e: u32, a: u32, b: u32, w: u64)
    requires
        simple(links),
        links.contains_key(e) ==> links[e].0 == a && links[e].1 == b,
        !links.contains_key(e) ==> !linked(links, a, b),
    ensures
        simple(links.insert(e, (a, b, w))),
        weights(links.insert(e, (a, b, w))) =~= weights(links).insert((a, b), w),
{
    let after = links.insert(e, (a, b, w));
    assert(simple(after)) by {
        assert forall|e1: u32, e2: u32|
            after.contains_key(e1) && after.contains_key(e2) && after[e1].0 == after[e2].0
                && after[e1].1 == after[e2].1 implies e1 == e2 by {
            if e1 != e && e2 != e {
                assert(links.contains_key(e1) && links.contains_key(e2));
            } else if e1 == e && e2 != e {
                assert(links.contains_key(e2));
                if links.contains_key(e) {
                    assert(links.contains_key(e) && links.contains_key(e2));
                }
            } else if e2 == e && e1 != e {
                assert(links.contains_key(e1));
                if links.contains_key(e) {
                    assert(links.contains_key(e1) && links.contains_key(e));
                }
            }
        }
    }
    assert(after.contains_key(e));
    lemma_weight_of_link(after, e);
    assert forall|k: (u32, u32)| #[trigger]
        weights(after).contains_key(k) <==> weights(links).insert((a, b), w).contains_key(k) by {
        if linked(after, k.0, k.1) {
            let f = arc_id(after, k);
            if f != e {
                assert(links.contains_key(f));
            }
        }
        if linked(links, k.0, k.1) {
            let f = arc_id(links, k);
            assert(after.contains_key(f));
            if f == e {
                assert(k == (a, b));
            }
        }
    }
    assert forall|k: (u32, u32)| #[trigger] weights(after).contains_key(k) && k != (a, b) implies weights(
        after,
    )[k] == weights(links)[k] by {
        let f = arc_id(after, k);
        assert(f != e);
        assert(links.contains_key(f));
        lemma_weight_of_link(links, f);
    }
}

/// Taking an edge out keeps the graph simple and clears the weight of its pair.
pub proof fn lemma_drop_link(links: Map<u32, Link>, e: u32)
    requires
        simple(links),
        links.contains_key(e),
    ensures
        simple(links.remove(e)),
        weights(links.remove(e)) =~= weights(links).remove((links[e].0, links[e].1)),
{
    let after = links.remove(e);
    let gone = (links[e].0, links[e].1);
    assert(simple(after)) by {
        assert forall|e1: u32, e2: u32|
            after.contains_key(e1) && after.contains_key(e2) && after[e1].0 == after[e2].0
                && after[e1].1 == after[e2].1 implies e1 == e2 by {
            assert(links.contains_key(e1) && links.contains_key(e2));
        }
    }
    assert forall|k: (u32, u32)| #[trigger]
        weights(after).contains_key(k) <==> weights(links).remove(gone).contains_key(k) by {
        if linked(after, k.0, k.1) {
            let f = arc_id(after, k);
            assert(links.contains_key(f));
            if k == gone {
                assert(links.contains_key(f) && links.contains_key(e));
            }
        }
        if linked(links, k.0, k.1) && k != gone {
            let f = arc_id(links, k);
            assert(after.contains_key(f));
        }
    }
    assert forall|k: (u32, u32)| #[trigger] weights(after).contains_key(k) implies weights(after)[k]
        == weights(links)[k] by {
        let f = arc_id(after, k);
        assert(links.contains_key(f));
        lemma_weight_of_link(links, f);
    }
}

/// The edges that neither start nor end at `n`.
pub open spec fn links_without_node(links: Map<u32, Link>, n: u32) -> Map<u32, Link> {
    Map::new(
        |e: u32| links.contains_key(e) && links[e].0 != n && links[e].1 != n,
        |e: u32| links[e],
    )
}

/// The weights of the pairs that do not involve `n`.
pub open spec fn edges_without_node(edges: Map<(u32, u32), u64>, n: u32) -> Map<(u32, u32), u64> {
    Map::new(
        |k: (u32, u32)| edges.contains_key(k) && k.0 != n && k.1 != n,
        |k: (u32, u32)| edges[k],
    )
}

/// Taking out the edges at a node keeps the graph simple and clears the
/// weights of the pairs that involve the node.
pub proof fn lemma_drop_node_links(links: Map<u32, Link>, n: u32)
    requires
        simple(links),
    ensures
        simple(links_without_node(links, n)),
        weights(links_without_node(links, n)) =~= edges_without_node(weights(links), n),
{
    let after = links_without_node(links, n);
    assert(simple(after)) by {
        assert forall|e1: u32, e2: u32|
            after.contains_key(e1) && after.contains_key(e2) && after[e1].0 == after[e2].0
                && after[e1].1 == after[e2].1 implies e1 == e2 by {
            assert(links.contains_key(e1) && links.contains_key(e2));
        }
    }
    assert forall|k: (u32, u32)| #[trigger]
        weights(after).contains_key(k) <==> edges_without_node(weights(links), n).contains_key(
            k,
        ) by {
        if linked(after, k.0, k.1) {
            let f = arc_id(after, k);
            assert(links.contains_key(f));
        }
        if linked(links, k.0, k.1) && k.0 != n && k.1 != n {
            let f = arc_id(links, k);
            assert(after.contains_key(f));
        }
    }
    assert forall|k: (u32, u32)| #[trigger] weights(after).contains_key(k) implies weights(after)[k]
        == weights(links)[k] by {
        let f = arc_id(after, k);
        assert(links.contains_key(f));
        lemma_weight_of_link(links, f);
    }
}

/// A simple graph has as many weighted pairs as edges.
pub proof fn lemma_count_links(links: Map<u32, Link>)
    requires
        simple(links),
        links.dom().finite(),
    ensures
        weights(links).dom().finite(),
        weights(links).len() == links.len(),
{
    let ends = |e: u32| (links[e].0, links[e].1);
    assert(vstd::relations::injective_on(ends, links.dom())) by {
        assert forall|e1: u32, e2: u32|
            links.dom().contains(e1) && links.dom().contains(e2) && #[trigger] ends(e1)
                == #[trigger] ends(e2) implies e1 == e2 by {
            assert(links.contains_key(e1) && links.contains_key(e2));
        }
    }
    assert(links.dom().map(ends) =~= weights(links).dom()) by {
        assert forall|k: (u32, u32)| #[trigger]
            links.dom().map(ends).contains(k) <==> weights(links).dom().contains(k) by {
            if links.dom().map(ends).contains(k) {
                let e = choose|e: u32| links.dom().contains(e) && k == ends(e);
                assert(links.contains_key(e));
            }
            if linked(links, k.0, k.1) {
                let e = arc_id(links, k);
                assert(links.dom().contains(e) && k == ends(e));
            }
        }
    }
    vstd::set_lib::lemma_map_size(links.dom(), weights(links).dom(), ends);
}

/// A set of indices below `u32::MAX` is finite and has at most `u32::MAX`
/// members.
pub proof fn lemma_index_count(indices: Set<u32>)
    requires
        !indices.contains(u32::MAX),
    ensures
        indices.finite(),
        indices.len() <= u32::MAX,
{
    let range = vstd::set_lib::set_int_range(0, u32::MAX as int);
    let narrow = |i: int| i as u32;
    let all = range.map(narrow);
    vstd::set_lib::lemma_int_range(0, u32::MAX as int);
    assert(vstd::relations::injective_on(narrow, range));
    vstd::set_lib::lemma_map_size(range, all, narrow);
    assert(indices.subset_of(all)) by {
        assert forall|n: u32| indices.contains(n) implies all.contains(n) by {
            assert(range.contains(n as int));
            assert(narrow(n as int) == n);
        }
    }
    vstd::set_lib::lemma_len_subset(indices, all);
}

/// A directed graph of [`Node`]s whose edges carry probabilities.
pub struct FlowGraph {
    g: StableGraph<Node, u64>,
}

/// Mathematical value of a [`FlowGraph`].
pub struct FlowView {
    /// The nodes, by index.
    pub nodes: Map<u32, NodeView>,
    /// The edge probabilities, by ordered pair of node indices.
    pub edges: Map<(u32, u32), u64>,
}

impl View for FlowGraph {
    type V = FlowView;

    open spec fn view(&self) -> FlowView {
        FlowView { nodes: self.nodes(), edges: self.edges() }
    }
}

impl FlowGraph {
    /// The nodes, by index.
    pub closed spec fn nodes(&self) -> Map<u32, NodeView> {
        graph_nodes(self.g)
    }

    /// The edge probabilities, by ordered pair of node indices.
    pub closed spec fn edges(&self) -> Map<(u32, u32), u64> {
        weights(graph_links(self.g))
    }

    /// Finitely many nodes and edges, at most one edge for each ordered pair,
    /// and every edge between nodes of the graph.
    pub closed spec fn wf(&self) -> bool {
        &&& graph_nodes(self.g).dom().finite()
        &&& graph_links(self.g).dom().finite()
        &&& !graph_nodes(self.g).contains_key(u32::MAX)
        &&& !graph_links(self.g).contains_key(u32::MAX)
        &&& simple(graph_links(self.g))
        &&& forall|e: u32| #[trigger]
            graph_links(self.g).contains_key(e) ==> graph_nodes(self.g).contains_key(
                graph_links(self.g)[e].0,
            ) && graph_nodes(self.g).contains_key(graph_links(self.g)[e].1)
    }

    /// In a well-formed graph the node and edge sets are finite and edges
    /// connect nodes of the graph.
    pub proof fn lemma_wf(&self)
        requires
            self.wf(),
        ensures
            self.nodes().dom().finite(),
            self.edges().dom().finite(),
            self.nodes().len() <= u32::MAX,
            self.edges().len() <= u32::MAX,
            forall|k: (u32, u32)| #[trigger]
                self.edges().contains_key(k) ==> self.nodes().contains_key(k.0)
                    && self.nodes().contains_key(k.1),
    {
        let links = graph_links(self.g);
        lemma_count_links(links);
        lemma_index_count(graph_nodes(self.g).dom());
        lemma_index_count(links.dom());
        assert forall|k: (u32, u32)| #[trigger] self.edges().contains_key(k) implies self.nodes().contains_key(
            k.0,
        ) && self.nodes().contains_key(k.1) by {
            let e = arc_id(links, k);
            assert(links.contains_key(e));
        }
    }

    /// The empty graph.
    pub fn new() -> (r: FlowGraph)
        ensures
            r.wf(),
            r.nodes() =~= Map::empty(),
            r.edges() =~= Map::empty(),
    {
        let g = store_new();
        let r = FlowGraph { g };
        proof {
            let links = graph_links(r.g);
            assert forall|k: (u32, u32)| !(#[trigger] weights(links).contains_key(k)) by {
                if linked(links, k.0, k.1) {
                    let e = arc_id(links, k);
                    assert(links.contains_key(e));
                }
            }
        }
        r
    }

    /// Number of nodes.
    pub fn node_count(&self) -> (r: usize)
        requires
            self.wf(),
        ensures
            r == self.nodes().len(),
    {
        store_node_count(&self.g)
    }

    /// Number of edges.
    pub fn edge_count(&self) -> (r: usize)
        requires
            self.wf(),
        ensures
            r == self.edges().len(),
    {
        proof {
            lemma_count_links(graph_links(self.g));
        }
        store_edge_count(&self.g)
    }

    /// Adds a node and returns its index, which no node had before. Fewer
    /// than `u32::MAX` nodes can be held.
    pub fn add_node(&mut self, node: Node) -> (n: u32)
        requires
            old(self).wf(),
            old(self).nodes().len() < u32::MAX,
        ensures
            final(self).wf(),
            !old(self).nodes().contains_key(n),
            final(self).nodes() == old(self).nodes().insert(n, node@),
            final(self).edges() == old(self).edges(),
    {
        store_add_node(&mut self.g, node)
    }

    /// Sets the probability of the edge from `a` to `b`, adding the edge where
    /// there was none. Fewer than `u32::MAX` edges can be held.
    pub fn add_edge(&mut self, a: u32, b: u32, weight: u64)
        requires
            old(self).wf(),
            old(self).nodes().contains_key(a),
            old(self).nodes().contains_key(b),
            old(self).edges().contains_key((a, b)) || old(self).edges().len() < u32::MAX,
        ensures
            final(self).wf(),
            final(self).nodes() == old(self).nodes(),
            final(self).edges() == old(self).edges().insert((a, b), weight),
    {
        let ghost links = graph_links(self.g);
        proof {
            lemma_count_links(links);
        }
        match store_find_edge(&self.g, a, b) {
            Some(e) => {
                store_set_edge_weight(&mut self.g, e, weight);
                proof {
                    lemma_store_link(links, e, a, b, weight);
                }
            },
            None => {
                let e = store_add_edge(&mut self.g, a, b, weight);
                proof {
                    lemma_store_link(links, e, a, b, weight);
                }
            },
        }
    }

    /// The node with index `n`.
    pub fn node(&self, n: u32) -> (r: Option<&Node>)
        ensures
            match r {
                Some(node) => self.nodes().contains_key(n) && node@ == self.nodes()[n],
                None => !self.nodes().contains_key(n),
            },
    {
        store_node(&self.g, n)
    }

    /// Replaces the node with index `n`; without such a node nothing changes.
    pub fn set_node(&mut self, n: u32, node: Node)
        requires
            old(self).wf(),
        ensures
            final(self).wf(),
            final(self).edges() == old(self).edges(),
            final(self).nodes() == (if old(self).nodes().contains_key(n) {
                old(self).nodes().insert(n, node@)
            } else {
                old(self).nodes()
            }),
    {
        if store_node(&self.g, n).is_some() {
            store_set_node(&mut self.g, n, node);
        }
    }

    /// The probability of the edge from `a` to `b`.
    pub fn edge(&self, a: u32, b: u32) -> (r: Option<u64>)
        requires
            self.wf(),
        ensures
            r == (if self.edges().contains_key((a, b)) {
                Some(self.edges()[(a, b)])
            } else {
                None
            }),
    {
        match store_find_edge(&self.g, a, b) {
            Some(e) => {
                proof {
                    lemma_weight_of_link(graph_links(self.g), e);
                }
                store_edge_weight(&self.g, e)
            },
            None => None,
        }
    }

    /// Removes the edge from `a` to `b` and returns its probability.
    pub fn remove_edge(&mut self, a: u32, b: u32) -> (r: Option<u64>)
        requires
            old(self).wf(),
        ensures
            final(self).wf(),
            final(self).nodes() == old(self).nodes(),
            final(self).edges() == old(self).edges().remove((a, b)),
            r == (if old(self).edges().contains_key((a, b)) {
                Some(old(self).edges()[(a, b)])
            } else {
                None
            }),
    {
        let ghost links = graph_links(self.g);
        match store_find_edge(&self.g, a, b) {
            Some(e) => {
                proof {
                    lemma_weight_of_link(links, e);
                    lemma_drop_link(links, e);
                }
                store_remove_edge(&mut self.g, e)
            },
            None => {
                assert(old(self).edges().remove((a, b)) =~= old(self).edges());
                None
            },
        }
    }

    /// Removes the node with index `n`, with every edge that starts or ends
    /// at it, and returns it.
    pub fn remove_node(&mut self, n: u32) -> (r: Option<Node>)
        requires
            old(self).wf(),
        ensures
            final(self).wf(),
            final(self).nodes() == old(self).nodes().remove(n),
            final(self).edges() == edges_without_node(old(self).edges(), n),
            match r {
                Some(node) => old(self).nodes().contains_key(n) && node@ == old(self).nodes()[n],
                None => !old(self).nodes().contains_key(n),
            },
    {
        let ghost links = graph_links(self.g);
        let r = store_remove_node(&mut self.g, n);
        proof {
            lemma_drop_node_links(links, n);
            assert(graph_links(self.g) =~= links_without_node(links, n));
            assert(links_without_node(links, n).dom().subset_of(links.dom()));
            vstd::set_lib::lemma_len_subset(links_without_node(links, n).dom(), links.dom());
        }
        r
    }

    /// The indices of all nodes, in ascending order.
    pub fn node_indices(&self) -> (r: Vec<u32>)
        ensures
            forall|i: int, j: int| 0 <= i < j < r@.len() ==> r@[i] < r@[j],
            forall|n: u32| r@.contains(n) <==> self.nodes().contains_key(n),
    {
        store_node_indices(&self.g)
    }

    /// The nodes that an edge from `n` leads to, each once.
    pub fn successors(&self, n: u32) -> (r: Vec<u32>)
        requires
            self.wf(),
        ensures
            r@.no_duplicates(),
            forall|b: u32| r@.contains(b) <==> self.edges().contains_key((n, b)),
    {
        store_successors(&self.g, n)
    }

    /// Every path from `from` to `to` with between `min` and `max` nodes in
    /// between, each once.
    pub fn simple_paths(&self, from: u32, to: u32, min: usize, max: usize) -> (r: Vec<Vec<u32>>)
        requires
            self.wf(),
            min < usize::MAX,
            max < usize::MAX,
        ensures
            forall|k: int|
                0 <= k < r@.len() ==> is_route(
                    self.edges().dom(),
                    from,
                    to,
                    min as nat,
                    max as nat,
                    (#[trigger] r@[k])@,
                ),
            forall|p: Seq<u32>|
                is_route(self.edges().dom(), from, to, min as nat, max as nat, p) ==> exists|k: int|
                    0 <= k < r@.len() && (#[trigger] r@[k])@ == p,
            forall|i: int, j: int| 0 <= i < j < r@.len() ==> (#[trigger] r@[i])@ != (#[trigger] r@[j])@,
    {
        assert(self.edges().dom() =~= arcs(graph_links(self.g)));
        store_simple_paths(&self.g, from, to, min, max)
    }

    /// Whether the edges form a directed cycle.
    pub fn is_cyclic(&self) -> (r: bool)
        ensures
            r == has_cycle(self.edges().dom()),
    {
        assert(self.edges().dom() =~= arcs(graph_links(self.g)));
        store_is_cyclic(&self.g)
    }
}

} // verus!

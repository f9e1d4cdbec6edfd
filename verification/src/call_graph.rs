//! The call graph that telemetry fills: one node for each action, with its
//! invocation count and smoothed duration, and one edge for each observed
//! pair of caller and callee, with the number of calls.

use crate::epoch_cache::{EpochCache, EpochState};
use crate::flow::FlowGraph;
use crate::graph::{Edge, Graph, GraphView};
use crate::node::{ratio, ratio_of, Node, NodeView};
use vstd::prelude::*;

verus! {

/// What is known of one action.
#[derive(Debug)]
pub struct ActionInfo {
    pub action_name: String,
    pub invoke_count: usize,
    pub buffer: EpochCache,
}

/// What is known of one transition.
#[derive(Debug)]
pub struct EdgeInfo {
    pub call_count: usize,
}

/// Mathematical value of an [`ActionInfo`].
pub struct ActionView {
    pub action_name: Seq<char>,
    pub invoke_count: usize,
    pub buffer: EpochState,
}

/// A count after one more event; it stops at `usize::MAX`.
pub open spec fn bumped(count: usize) -> usize {
    if count < usize::MAX {
        (count + 1) as usize
    } else {
        count
    }
}

impl ActionView {
    /// The action before any event.
    pub open spec fn fresh(name: Seq<char>) -> ActionView {
        ActionView { action_name: name, invoke_count: 0, buffer: EpochState::fresh() }
    }

    /// The action after one more invocation of the given duration.
    pub open spec fn invoked(self, duration: u64) -> ActionView {
        ActionView {
            action_name: self.action_name,
            invoke_count: bumped(self.invoke_count),
            buffer: self.buffer.add(duration),
        }
    }
}

impl View for ActionInfo {
    type V = ActionView;

    open spec fn view(&self) -> ActionView {
        ActionView {
            action_name: self.action_name@,
            invoke_count: self.invoke_count,
            buffer: self.buffer@,
        }
    }
}

impl ActionInfo {
    /// The action of the given name before any event.
    pub fn new(action_name: &str) -> (r: ActionInfo)
        ensures
            r@ == ActionView::fresh(action_name@),
    {
        ActionInfo { action_name: action_name.to_owned(), invoke_count: 0, buffer: EpochCache::new() }
    }
}

impl Default for ActionInfo {
    fn default() -> (r: ActionInfo)
        ensures
            r@ == ActionView::fresh(Seq::empty()),
    {
        ActionInfo { action_name: String::new(), invoke_count: 0, buffer: EpochCache::new() }
    }
}

impl Default for EdgeInfo {
    fn default() -> (r: EdgeInfo)
        ensures
            r.call_count == 0,
    {
        EdgeInfo { call_count: 0 }
    }
}

/// Executable form of [`bumped`].
pub fn bump(count: usize) -> (r: usize)
    ensures
        r == bumped(count),
{
    if count < usize::MAX {
        count + 1
    } else {
        count
    }
}

/// The graph of actions and transitions.
pub type CallGraph = Graph<EdgeInfo, ActionInfo>;

/// Mathematical value of a [`CallGraph`]: for each node index the name, the
/// action and the transitions that leave it.
pub struct CallView {
    pub names: Seq<Seq<char>>,
    pub actions: Seq<ActionView>,
    pub edges: Seq<Map<usize, Edge<EdgeInfo>>>,
}

/// The value of a call graph.
pub open spec fn call_view(graph: GraphView<EdgeInfo, ActionInfo>) -> CallView {
    CallView {
        names: graph.names,
        actions: Seq::new(graph.values.len(), |i: int| graph.values[i]@),
        edges: graph.edges,
    }
}

impl CallView {
    /// Every node has one name, one action and one set of transitions, and
    /// no two nodes share a name.
    pub open spec fn wf(self) -> bool {
        &&& self.names.no_duplicates()
        &&& self.actions.len() == self.names.len()
        &&& self.edges.len() == self.names.len()
    }

    /// Whether a node has the name.
    pub open spec fn has_node(self, name: Seq<char>) -> bool {
        self.names.contains(name)
    }

    /// The index of the node with the name.
    pub open spec fn node_index(self, name: Seq<char>) -> int {
        self.names.index_of(name)
    }

    /// The graph with a node of the name: itself where it has one, else
    /// with a new last node for the action before any event.
    pub open spec fn ensure_node(self, name: Seq<char>) -> CallView {
        if self.has_node(name) {
            self
        } else {
            CallView {
                names: self.names.push(name),
                actions: self.actions.push(ActionView::fresh(name)),
                edges: self.edges.push(Map::empty()),
            }
        }
    }

    /// The graph after an invocation of the action was recorded.
    pub open spec fn record_invocation(self, action: Seq<char>, duration: u64) -> CallView {
        let g = self.ensure_node(action);
        let i = g.node_index(action);
        CallView {
            names: g.names,
            actions: g.actions.update(i, g.actions[i].invoked(duration)),
            edges: g.edges,
        }
    }

    /// The number of calls recorded from node `i` to node `j`.
    pub open spec fn call_count(self, i: int, j: int) -> usize {
        if self.edges[i].contains_key(j as usize) {
            self.edges[i][j as usize].data.call_count
        } else {
            0
        }
    }

    /// The graph with the two actions and an edge from the caller to the
    /// callee; a new edge counts no call.
    pub open spec fn declare_transition(self, caller: Seq<char>, callee: Seq<char>) -> CallView {
        let g = self.ensure_node(caller).ensure_node(callee);
        let i = g.node_index(caller);
        let j = g.node_index(callee);
        if g.edges[i].contains_key(j as usize) {
            g
        } else {
            CallView {
                names: g.names,
                actions: g.actions,
                edges: g.edges.update(
                    i,
                    g.edges[i].insert(
                        j as usize,
                        Edge { from: i as usize, to: j as usize, data: EdgeInfo { call_count: 0 } },
                    ),
                ),
            }
        }
    }

    /// The graph after a transition from the caller to the callee was
    /// recorded.
    pub open spec fn record_transition(self, caller: Seq<char>, callee: Seq<char>) -> CallView {
        let g = self.ensure_node(caller).ensure_node(callee);
        let i = g.node_index(caller);
        let j = g.node_index(callee);
        let counted = if g.edges[i].contains_key(j as usize) {
            Edge {
                from: g.edges[i][j as usize].from,
                to: g.edges[i][j as usize].to,
                data: EdgeInfo { call_count: bumped(g.edges[i][j as usize].data.call_count) },
            }
        } else {
            Edge { from: i as usize, to: j as usize, data: EdgeInfo { call_count: 1 } }
        };
        CallView {
            names: g.names,
            actions: g.actions,
            edges: g.edges.update(i, g.edges[i].insert(j as usize, counted)),
        }
    }
}

/// Makes sure that the graph has a node for the action. A new node starts
/// without invocations and with estimate zero.
pub fn ensure_action(graph: &mut CallGraph, action: &str) -> (i: usize)
    requires
        old(graph).wf(),
    ensures
        final(graph).wf(),
        call_view(final(graph)@) == call_view(old(graph)@).ensure_node(action@),
        final(graph)@.has_node(action@),
        i == final(graph)@.node_index(action@),
        i < final(graph)@.names.len(),
{
    proof {
        graph.lemma_wf();
    }
    let i = match graph.find(action) {
        Some(i) => i,
        None => {
            let i = graph.node_count();
            let info = ActionInfo::new(action);
            graph.add_node(action, info);
            proof {
                assert(call_view(graph@).actions =~= call_view(old(graph)@).actions.push(
                    ActionView::fresh(action@),
                ));
                assert(graph@.names[i as int] == action@);
                graph.lemma_wf();
            }
            i
        },
    };
    i
}

/// Records one invocation of the action with its duration: the invocation
/// count of the action grows by one and the duration goes to its smoothing
/// buffer. An action that was not known is added first.
pub fn record_invocation(graph: &mut CallGraph, action: &str, duration: u64)
    requires
        old(graph).wf(),
    ensures
        final(graph).wf(),
        call_view(final(graph)@) == call_view(old(graph)@).record_invocation(action@, duration),
{
    let i = ensure_action(graph, action);
    let ghost known = graph@;
    proof {
        graph.lemma_wf();
    }
    let node = graph.get_node(action);
    node.invoke_count = bump(node.invoke_count);
    node.buffer.add(duration);
    proof {
        assert(call_view(graph@).actions =~= call_view(known).actions.update(
            i as int,
            call_view(known).actions[i as int].invoked(duration),
        ));
    }
}

/// Records one transition from the caller to the callee: the call count of
/// the edge between them grows by one. Actions that were not known are added
/// first, and so is the edge, which then counts one call.
pub fn record_transition(graph: &mut CallGraph, caller: &str, callee: &str)
    requires
        old(graph).wf(),
    ensures
        final(graph).wf(),
        call_view(final(graph)@) == call_view(old(graph)@).record_transition(caller@, callee@),
{
    let i = ensure_action(graph, caller);
    let ghost with_caller = graph@;
    let j = ensure_action(graph, callee);
    let ghost known = graph@;
    proof {
        graph.lemma_wf();
        assert(call_view(known) == call_view(old(graph)@).ensure_node(caller@).ensure_node(callee@));
        assert(with_caller.names[i as int] == caller@);
        assert(known.names[i as int] == caller@);
        assert(known.has_node(caller@));
        assert(i == known.node_index(caller@));
    }
    let present = graph.edges(caller).contains_key(&j);
    if !present {
        graph.add_edge(caller, callee, EdgeInfo { call_count: 0 });
        proof {
            graph.lemma_wf();
        }
    }
    let ghost ready = graph@;
    proof {
        if !present {
            let (a, b) = choose|a: ActionInfo, b: ActionInfo|
                {
                    let with_both = #[trigger] known.ensure_node(caller@, a).ensure_node(callee@, b);
                    ready == with_both.put_edge(
                        with_both.node_index(caller@),
                        with_both.node_index(callee@),
                        EdgeInfo { call_count: 0 },
                    )
                };
            assert(known.ensure_node(caller@, a).ensure_node(callee@, b) == known);
        }
        assert(ready.names == known.names);
        assert(ready.values == known.values);
        assert(ready.edges[i as int].contains_key(j));
        assert(ready.has_node(caller@) && ready.has_node(callee@));
        assert forall|a: ActionInfo, b: ActionInfo|
            #[trigger] ready.ensure_node(caller@, a).ensure_node(callee@, b) == ready by {}
    }
    let e = graph.edge(caller, callee);
    e.call_count = bump(e.call_count);
    proof {
        let want = call_view(old(graph)@).record_transition(caller@, callee@);
        assert(call_view(graph@).names == want.names);
        assert(call_view(graph@).actions =~= want.actions);
        assert(graph@.edges.len() == want.edges.len());
        assert(graph@.edges[i as int] =~= want.edges[i as int]);
        assert(call_view(graph@).edges =~= want.edges);
    }
}

/// Recording a transition a second time adds no node and no edge: the one
/// edge between the two nodes counts both calls. Where there was no such
/// edge before, it counts two.
pub proof fn lemma_transition_twice(graph: CallView, caller: Seq<char>, callee: Seq<char>)
    requires
        graph.wf(),
    ensures
        ({
            let known = graph.ensure_node(caller).ensure_node(callee);
            let once = graph.record_transition(caller, callee);
            let twice = once.record_transition(caller, callee);
            let i = known.node_index(caller);
            let j = known.node_index(callee);
            &&& once.wf() && twice.wf()
            &&& twice.names == once.names
            &&& twice.actions == once.actions
            &&& once.edges[i].dom() == known.edges[i].dom().insert(j as usize)
            &&& twice.edges[i].dom() == once.edges[i].dom()
            &&& forall|k: int| 0 <= k < once.edges.len() && k != i ==> twice.edges[k] == known.edges[k]
            &&& twice.call_count(i, j) == bumped(bumped(known.call_count(i, j)))
            &&& !known.edges[i].contains_key(j as usize) ==> twice.call_count(i, j) == 2
        }),
{
    let with_caller = graph.ensure_node(caller);
    let known = with_caller.ensure_node(callee);
    assert(with_caller.has_node(caller)) by {
        if !graph.has_node(caller) {
            assert(with_caller.names[graph.names.len() as int] == caller);
        }
    }
    assert(known.has_node(callee)) by {
        if !with_caller.has_node(callee) {
            assert(known.names[with_caller.names.len() as int] == callee);
        }
    }
    assert(known.has_node(caller)) by {
        let k = choose|k: int| 0 <= k < with_caller.names.len() && with_caller.names[k] == caller;
        assert(known.names[k] == caller);
    }
    assert(known.wf());
    let once = graph.record_transition(caller, callee);
    let i = known.node_index(caller);
    let j = known.node_index(callee);
    assert(0 <= i < known.names.len() && 0 <= j < known.names.len());
    assert(once.names == known.names);
    assert(once.ensure_node(caller).ensure_node(callee) == once);
    let twice = once.record_transition(caller, callee);
    assert(once.edges[i].contains_key(j as usize));
    assert(once.edges[i].dom() =~= known.edges[i].dom().insert(j as usize));
    assert(twice.edges[i].dom() =~= once.edges[i].dom());
}

/// Makes sure that the graph has the two actions and an edge from the
/// caller to the callee; a new edge counts no call yet.
pub fn declare_transition(graph: &mut CallGraph, caller: &str, callee: &str)
    requires
        old(graph).wf(),
    ensures
        final(graph).wf(),
        call_view(final(graph)@) == call_view(old(graph)@).declare_transition(caller@, callee@),
{
    let i = ensure_action(graph, caller);
    let ghost with_caller = graph@;
    let j = ensure_action(graph, callee);
    let ghost known = graph@;
    proof {
        graph.lemma_wf();
        assert(with_caller.names[i as int] == caller@);
        assert(known.names[i as int] == caller@);
        assert(known.has_node(caller@));
        assert(i == known.node_index(caller@));
    }
    let present = graph.edges(caller).contains_key(&j);
    if !present {
        graph.add_edge(caller, callee, EdgeInfo { call_count: 0 });
        proof {
            let (a, b) = choose|a: ActionInfo, b: ActionInfo|
                {
                    let with_both = #[trigger] known.ensure_node(caller@, a).ensure_node(callee@, b);
                    graph@ == with_both.put_edge(
                        with_both.node_index(caller@),
                        with_both.node_index(callee@),
                        EdgeInfo { call_count: 0 },
                    )
                };
            assert(known.ensure_node(caller@, a).ensure_node(callee@, b) == known);
            let want = call_view(old(graph)@).declare_transition(caller@, callee@);
            assert(call_view(graph@).actions =~= want.actions);
            assert(graph@.edges[i as int] =~= want.edges[i as int]);
            assert(call_view(graph@).edges =~= want.edges);
        }
    }
}

/// Whether a transition from node `i` to node `j` was recorded.
pub open spec fn present(graph: CallView, i: int, j: int) -> bool {
    &&& 0 <= i < graph.names.len()
    &&& 0 <= j < graph.names.len()
    &&& graph.edges[i].contains_key(j as usize)
}

/// The probability that an invocation of node `i` goes on to node `j`: the
/// calls recorded on the edge by the invocations of `i`, and zero where `i`
/// was never invoked.
pub open spec fn probability(graph: CallView, i: int, j: int) -> u64 {
    ratio(
        graph.edges[i][j as usize].data.call_count as u64,
        graph.actions[i].invoke_count as u64,
    )
}

/// The number of transitions from node `i` to the nodes before `j`.
pub open spec fn row_count(graph: CallView, i: int, j: int) -> nat
    decreases j,
{
    if j <= 0 {
        0
    } else {
        row_count(graph, i, j - 1) + (if present(graph, i, j - 1) {
            1nat
        } else {
            0nat
        })
    }
}

/// The number of transitions from the nodes before `i`.
pub open spec fn rows_count(graph: CallView, i: int) -> nat
    decreases i,
{
    if i <= 0 {
        0
    } else {
        rows_count(graph, i - 1) + row_count(graph, i - 1, graph.names.len() as int)
    }
}

/// The number of transitions of the graph.
pub open spec fn transition_count(graph: CallView) -> nat {
    rows_count(graph, graph.names.len() as int)
}

/// The count of a row grows with the number of places counted.
proof fn lemma_row_count_grows(graph: CallView, i: int, j: int, k: int)
    requires
        0 <= j <= k,
    ensures
        row_count(graph, i, j) <= row_count(graph, i, k),
    decreases k - j,
{
    if j < k {
        lemma_row_count_grows(graph, i, j, k - 1);
    }
}

/// The count of the rows grows with the number of rows counted.
proof fn lemma_rows_count_grows(graph: CallView, i: int, k: int)
    requires
        0 <= i <= k,
    ensures
        rows_count(graph, i) <= rows_count(graph, k),
    decreases k - i,
{
    if i < k {
        lemma_rows_count_grows(graph, i, k - 1);
    }
}

/// Whether the pair of places `(a, b)` comes before `(i, j)` row by row.
pub open spec fn pair_before(a: int, b: int, i: int, j: int) -> bool {
    a < i || (a == i && b < j)
}

/// The nodes of the reduction graph that stands for a call graph, where
/// `ids[i]` is the index that node `i` has there: each node is an action
/// with its smoothed duration.
pub open spec fn snapshot_nodes(graph: CallView, ids: Seq<u32>) -> Map<u32, NodeView> {
    Map::new(
        |x: u32| ids.contains(x),
        |x: u32| NodeView::N(graph.actions[ids.index_of(x)].buffer.current),
    )
}

/// The edges of the reduction graph that stands for a call graph, as far as
/// the pairs before `(i, j)` go.
pub open spec fn snapshot_edges_upto(graph: CallView, ids: Seq<u32>, i: int, j: int) -> Map<
    (u32, u32),
    u64,
> {
    Map::new(
        |k: (u32, u32)|
            exists|a: int, b: int|
                #![trigger present(graph, a, b)]
                present(graph, a, b) && pair_before(a, b, i, j) && k == (ids[a], ids[b]),
        |k: (u32, u32)| probability(graph, ids.index_of(k.0), ids.index_of(k.1)),
    )
}

/// The edges of the reduction graph that stands for a call graph: one for
/// each recorded transition, with its probability.
pub open spec fn snapshot_edges(graph: CallView, ids: Seq<u32>) -> Map<(u32, u32), u64> {
    snapshot_edges_upto(graph, ids, graph.names.len() as int, 0)
}

/// The reduction graph that stands for the call graph as it is now, and for
/// each node of the call graph its index there. A reduction graph holds at
/// most `u32::MAX - 1` nodes and `u32::MAX` edges: a call graph with more
/// has no snapshot.
pub fn snapshot(graph: &CallGraph) -> (r: Option<(FlowGraph, Vec<u32>)>)
    requires
        graph.wf(),
    ensures
        r is None <==> graph@.names.len() >= u32::MAX || transition_count(call_view(graph@))
            > u32::MAX,
        match r {
            Some((flow, ids)) => {
                &&& flow.wf()
                &&& ids@.len() == graph@.names.len()
                &&& ids@.no_duplicates()
                &&& flow.nodes() == snapshot_nodes(call_view(graph@), ids@)
                &&& flow.edges() == snapshot_edges(call_view(graph@), ids@)
            },
            None => true,
        },
{
    let ghost g = call_view(graph@);
    proof {
        graph.lemma_wf();
    }
    let n = graph.node_count();
    if n >= u32::MAX as usize {
        return None;
    }
    let mut flow = FlowGraph::new();
    let mut ids: Vec<u32> = Vec::new();
    let mut i: usize = 0;
    proof {
        assert(flow.nodes() =~= snapshot_nodes(g, ids@));
    }
    while i < n
        invariant
            0 <= i <= n,
            n == graph@.names.len(),
            n < u32::MAX,
            graph.wf(),
            g == call_view(graph@),
            flow.wf(),
            ids@.len() == i,
            ids@.no_duplicates(),
            flow.nodes().dom().finite(),
            flow.nodes().len() == i,
            flow.nodes() == snapshot_nodes(g, ids@),
            flow.edges() == Map::<(u32, u32), u64>::empty(),
        decreases n - i,
    {
        let current = graph.value_at(i).buffer.current();
        let ghost before = ids@;
        let id = flow.add_node(Node::N(current));
        ids.push(id);
        proof {
            flow.lemma_wf();
            graph.lemma_wf();
            assert(!before.contains(id));
            assert(ids@.no_duplicates()) by {
                assert forall|a: int, b: int| 0 <= a < ids@.len() && 0 <= b < ids@.len() && a != b implies ids@[a]
                    != ids@[b] by {
                    if a < before.len() {
                        assert(before.contains(before[a]));
                    }
                    if b < before.len() {
                        assert(before.contains(before[b]));
                    }
                }
            }
            assert forall|x: u32| ids@.contains(x) <==> (before.contains(x) || x == id) by {
                if before.contains(x) {
                    let k = choose|k: int| 0 <= k < before.len() && before[k] == x;
                    assert(ids@[k] == x);
                }
                if x == id {
                    assert(ids@[i as int] == x);
                }
                if ids@.contains(x) {
                    let k = choose|k: int| 0 <= k < ids@.len() && ids@[k] == x;
                    if k < before.len() {
                        assert(before[k] == x);
                    }
                }
            }
            assert forall|x: u32| ids@.contains(x) implies #[trigger] snapshot_nodes(g, ids@)[x]
                == flow.nodes()[x] by {
                let k = ids@.index_of(x);
                assert(ids@[k] == x);
                if x != id {
                    let k0 = before.index_of(x);
                    assert(before.contains(x));
                    assert(before[k0] == x);
                    assert(ids@[k0] == x);
                    assert(k == k0);
                    assert(snapshot_nodes(g, before)[x] == NodeView::N(
                        g.actions[k0].buffer.current,
                    ));
                } else {
                    assert(ids@[i as int] == x);
                    assert(k == i);
                    assert(g.actions[i as int] == graph@.values[i as int]@);
                }
            }
            assert(flow.nodes() =~= snapshot_nodes(g, ids@));
        }
        i += 1;
    }
    let mut a: usize = 0;
    proof {
        assert(flow.edges() =~= snapshot_edges_upto(g, ids@, 0, 0));
    }
    while a < n
        invariant
            0 <= a <= n,
            n == graph@.names.len(),
            graph.wf(),
            g == call_view(graph@),
            g.wf(),
            flow.wf(),
            ids@.len() == n,
            ids@.no_duplicates(),
            flow.nodes() == snapshot_nodes(g, ids@),
            flow.edges() == snapshot_edges_upto(g, ids@, a as int, 0),
            flow.edges().len() == rows_count(g, a as int),
        decreases n - a,
    {
        let row = graph.edges_at(a);
        let mut b: usize = 0;
        while b < n
            invariant
                0 <= a < n,
                0 <= b <= n,
                n == graph@.names.len(),
                graph.wf(),
                g == call_view(graph@),
                g.wf(),
                row@ == g.edges[a as int],
                flow.wf(),
                ids@.len() == n,
                ids@.no_duplicates(),
                flow.nodes() == snapshot_nodes(g, ids@),
                flow.edges() == snapshot_edges_upto(g, ids@, a as int, b as int),
                flow.edges().len() == rows_count(g, a as int) + row_count(g, a as int, b as int),
            decreases n - b,
        {
            let ghost before = flow.edges();
            match row.get(&b) {
                Some(edge) => {
                    proof {
                        flow.lemma_wf();
                        assert(present(g, a as int, b as int));
                        assert(ids@.contains(ids@[a as int]) && ids@.contains(ids@[b as int]));
                        lemma_pair_is_new(g, ids@, a as int, b as int);
                    }
                    if flow.edge_count() >= u32::MAX as usize {
                        proof {
                            lemma_row_count_grows(g, a as int, b + 1, n as int);
                            lemma_rows_count_grows(g, a + 1, n as int);
                        }
                        return None;
                    }
                    let p = ratio_of(edge.data.call_count as u64, graph.value_at(a).invoke_count as u64);
                    flow.add_edge(ids[a], ids[b], p);
                    proof {
                        lemma_pair_added(g, ids@, a as int, b as int);
                        assert(ids@.index_of(ids@[a as int]) == a) by {
                            let k = ids@.index_of(ids@[a as int]);
                            assert(ids@[k] == ids@[a as int]);
                        }
                        assert(ids@.index_of(ids@[b as int]) == b) by {
                            let k = ids@.index_of(ids@[b as int]);
                            assert(ids@[k] == ids@[b as int]);
                        }
                        assert(flow.edges() =~= snapshot_edges_upto(g, ids@, a as int, b + 1));
                    }
                },
                None => {
                    proof {
                        assert(!present(g, a as int, b as int));
                        lemma_pair_skipped(g, ids@, a as int, b as int);
                        assert(flow.edges() =~= snapshot_edges_upto(g, ids@, a as int, b + 1));
                    }
                },
            }
            b += 1;
        }
        proof {
            lemma_row_done(g, ids@, a as int);
            assert(flow.edges() =~= snapshot_edges_upto(g, ids@, a + 1, 0));
        }
        a += 1;
    }
    proof {
        flow.lemma_wf();
    }
    Some((flow, ids))
}

/// The edge for the pair at `(i, j)` is not among the edges for the pairs
/// before it.
proof fn lemma_pair_is_new(graph: CallView, ids: Seq<u32>, i: int, j: int)
    requires
        ids.no_duplicates(),
        ids.len() == graph.names.len(),
        0 <= i < ids.len(),
        0 <= j < ids.len(),
    ensures
        !snapshot_edges_upto(graph, ids, i, j).contains_key((ids[i], ids[j])),
{
    if snapshot_edges_upto(graph, ids, i, j).contains_key((ids[i], ids[j])) {
        let (a, b) = choose|a: int, b: int|
            #![trigger present(graph, a, b)]
            present(graph, a, b) && pair_before(a, b, i, j) && (ids[i], ids[j]) == (ids[a], ids[b]);
        assert(a == i && b == j);
    }
}

/// Going past a recorded pair adds its edge.
proof fn lemma_pair_added(graph: CallView, ids: Seq<u32>, i: int, j: int)
    requires
        ids.no_duplicates(),
        ids.len() == graph.names.len(),
        present(graph, i, j),
    ensures
        snapshot_edges_upto(graph, ids, i, j + 1).dom() =~= snapshot_edges_upto(
            graph,
            ids,
            i,
            j,
        ).dom().insert((ids[i], ids[j])),
{
    let small = snapshot_edges_upto(graph, ids, i, j);
    let big = snapshot_edges_upto(graph, ids, i, j + 1);
    assert forall|k: (u32, u32)| big.contains_key(k) <==> (small.contains_key(k) || k == (
        ids[i],
        ids[j],
    )) by {
        if big.contains_key(k) {
            let (a, b) = choose|a: int, b: int|
                #![trigger present(graph, a, b)]
                present(graph, a, b) && pair_before(a, b, i, j + 1) && k == (ids[a], ids[b]);
            if !(a == i && b == j) {
                assert(present(graph, a, b) && pair_before(a, b, i, j));
            }
        }
        if small.contains_key(k) {
            let (a, b) = choose|a: int, b: int|
                #![trigger present(graph, a, b)]
                present(graph, a, b) && pair_before(a, b, i, j) && k == (ids[a], ids[b]);
            assert(present(graph, a, b) && pair_before(a, b, i, j + 1));
        }
        if k == (ids[i], ids[j]) {
            assert(present(graph, i, j) && pair_before(i, j, i, j + 1));
        }
    }
}

/// Going past a pair that was not recorded adds nothing.
proof fn lemma_pair_skipped(graph: CallView, ids: Seq<u32>, i: int, j: int)
    requires
        !present(graph, i, j),
    ensures
        snapshot_edges_upto(graph, ids, i, j + 1) =~= snapshot_edges_upto(graph, ids, i, j),
{
    let small = snapshot_edges_upto(graph, ids, i, j);
    let big = snapshot_edges_upto(graph, ids, i, j + 1);
    assert forall|k: (u32, u32)| big.contains_key(k) <==> small.contains_key(k) by {
        if big.contains_key(k) {
            let (a, b) = choose|a: int, b: int|
                #![trigger present(graph, a, b)]
                present(graph, a, b) && pair_before(a, b, i, j + 1) && k == (ids[a], ids[b]);
            assert(present(graph, a, b) && pair_before(a, b, i, j));
        }
        if small.contains_key(k) {
            let (a, b) = choose|a: int, b: int|
                #![trigger present(graph, a, b)]
                present(graph, a, b) && pair_before(a, b, i, j) && k == (ids[a], ids[b]);
            assert(present(graph, a, b) && pair_before(a, b, i, j + 1));
        }
    }
}

/// The pairs before the start of a row are those up to the end of the row
/// before it.
proof fn lemma_row_done(graph: CallView, ids: Seq<u32>, i: int)
    ensures
        snapshot_edges_upto(graph, ids, i + 1, 0) =~= snapshot_edges_upto(
            graph,
            ids,
            i,
            graph.names.len() as int,
        ),
{
    let n = graph.names.len() as int;
    let small = snapshot_edges_upto(graph, ids, i, n);
    let big = snapshot_edges_upto(graph, ids, i + 1, 0);
    assert forall|k: (u32, u32)| big.contains_key(k) <==> small.contains_key(k) by {
        if big.contains_key(k) {
            let (a, b) = choose|a: int, b: int|
                #![trigger present(graph, a, b)]
                present(graph, a, b) && pair_before(a, b, i + 1, 0) && k == (ids[a], ids[b]);
            assert(present(graph, a, b) && pair_before(a, b, i, n));
        }
        if small.contains_key(k) {
            let (a, b) = choose|a: int, b: int|
                #![trigger present(graph, a, b)]
                present(graph, a, b) && pair_before(a, b, i, n) && k == (ids[a], ids[b]);
            assert(present(graph, a, b) && pair_before(a, b, i + 1, 0));
        }
    }
}

} // verus!

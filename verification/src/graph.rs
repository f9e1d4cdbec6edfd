//! A directed graph whose nodes are found by name. A node gets its index when
//! its name is first seen and keeps it; between two nodes there is at most
//! one edge in each direction.

use std::collections::HashMap;
use vstd::hash_map::StringHashMap;
use vstd::prelude::*;

verus! {

/// An edge with the indices of its two nodes.
pub struct Edge<T> {
    pub from: usize,
    pub to: usize,
    pub data: T,
}

/// The edges that leave one node, by the index of the node they lead to.
pub type Edges<T> = HashMap<usize, Edge<T>>;

/// A graph with node values `V` and edge values `T`.
pub struct Graph<T, V> {
    index: StringHashMap<usize>,
    names: Vec<String>,
    values: Vec<V>,
    edges: Vec<Edges<T>>,
}

/// Mathematical value of a [`Graph`]: for each node index the name, the
/// value and the edges that leave the node.
pub struct GraphView<T, V> {
    pub names: Seq<Seq<char>>,
    pub values: Seq<V>,
    pub edges: Seq<Map<usize, Edge<T>>>,
}

impl<T, V> GraphView<T, V> {
    /// The graph without nodes.
    pub open spec fn empty() -> Self {
        GraphView { names: Seq::empty(), values: Seq::empty(), edges: Seq::empty() }
    }

    /// Every node has one name, one value and one set of edges, and no two
    /// nodes share a name.
    pub open spec fn wf(self) -> bool {
        &&& self.names.no_duplicates()
        &&& self.values.len() == self.names.len()
        &&& self.edges.len() == self.names.len()
    }

    /// Whether a node has the name.
    pub open spec fn has_node(self, name: Seq<char>) -> bool {
        self.names.contains(name)
    }

    /// The index of the node with the name.
    pub open spec fn node_index(self, name: Seq<char>) -> int {
        self.names.index_of(name)
    }

    /// The graph with a new last node.
    pub open spec fn push_node(self, name: Seq<char>, value: V) -> Self {
        GraphView {
            names: self.names.push(name),
            values: self.values.push(value),
            edges: self.edges.push(Map::empty()),
        }
    }

    /// The graph with a node of the name: itself where it has one, else with
    /// a new last node of the given value.
    pub open spec fn ensure_node(self, name: Seq<char>, value: V) -> Self {
        if self.has_node(name) {
            self
        } else {
            self.push_node(name, value)
        }
    }

    /// The graph with the edge from node `from` to node `to` set.
    pub open spec fn put_edge(self, from: int, to: int, data: T) -> Self {
        GraphView {
            names: self.names,
            values: self.values,
            edges: self.edges.update(
                from,
                self.edges[from].insert(
                    to as usize,
                    Edge { from: from as usize, to: to as usize, data },
                ),
            ),
        }
    }
}

/// Whether `value` is what `Default::default` may return.
pub open spec fn is_default<D: Default>(value: D) -> bool {
    call_ensures(D::default, (), value)
}

/// The names of a list of strings.
pub open spec fn name_seq(names: Seq<String>) -> Seq<Seq<char>> {
    Seq::new(names.len(), |i: int| names[i]@)
}

impl<T, V> View for Graph<T, V> {
    type V = GraphView<T, V>;

    closed spec fn view(&self) -> GraphView<T, V> {
        GraphView {
            names: name_seq(self.names@),
            values: self.values@,
            edges: Seq::new(self.edges@.len(), |i: int| self.edges@[i]@),
        }
    }
}

impl<T, V> Graph<T, V> {
    /// The value is well formed and the names are indexed.
    pub closed spec fn wf(&self) -> bool {
        &&& self@.wf()
        &&& forall|name: Seq<char>| self.index@.contains_key(name) <==> self@.names.contains(name)
        &&& forall|i: int|
            0 <= i < self@.names.len() ==> self.index@[#[trigger] self@.names[i]] == i
    }

    /// A well-formed graph has a well-formed value.
    pub proof fn lemma_wf(&self)
        requires
            self.wf(),
        ensures
            self@.wf(),
    {
    }

    /// The empty graph.
    pub fn new() -> (r: Self)
        ensures
            r.wf(),
            r@ == GraphView::<T, V>::empty(),
    {
        let r = Graph {
            index: StringHashMap::new(),
            names: Vec::new(),
            values: Vec::new(),
            edges: Vec::new(),
        };
        assert(r@.names =~= Seq::<Seq<char>>::empty());
        assert(r@.edges =~= Seq::<Map<usize, Edge<T>>>::empty());
        r
    }

    /// Number of nodes.
    pub fn node_count(&self) -> (r: usize)
        requires
            self.wf(),
        ensures
            r == self@.names.len(),
    {
        self.names.len()
    }

    /// The index of the node with the name.
    pub fn find(&self, node_id: &str) -> (r: Option<usize>)
        requires
            self.wf(),
        ensures
            match r {
                Some(i) => self@.has_node(node_id@) && i == self@.node_index(node_id@),
                None => !self@.has_node(node_id@),
            },
    {
        match self.index.get(node_id) {
            Some(i) => {
                proof {
                    let j = self@.names.index_of(node_id@);
                    assert(self@.names[j] == node_id@);
                }
                Some(*i)
            },
            None => None,
        }
    }

    /// Adds a node with the name and the value, unless a node has the name
    /// already. Returns whether the node was added.
    pub fn add_node(&mut self, node_id: &str, value: V) -> (r: bool)
        requires
            old(self).wf(),
        ensures
            final(self).wf(),
            r == !old(self)@.has_node(node_id@),
            r ==> final(self)@ == old(self)@.push_node(node_id@, value),
            !r ==> final(self)@ == old(self)@,
    {
        if !self.index.contains_key(node_id) {
            let id = self.edges.len();
            let ghost before = self@;
            self.index.insert(node_id.to_owned(), id);
            self.names.push(node_id.to_owned());
            self.values.push(value);
            self.edges.push(HashMap::new());
            proof {
                assert(self@.names =~= before.names.push(node_id@));
                assert(self@.edges =~= before.edges.push(Map::empty()));
                assert forall|i: int| 0 <= i < self@.names.len() implies self.index@[#[trigger] self@.names[i]]
                    == i by {
                    if i < before.names.len() {
                        assert(before.names[i] == self@.names[i]);
                        assert(before.names.contains(before.names[i]));
                    }
                }
                assert forall|name: Seq<char>|
                    self.index@.contains_key(name) <==> self@.names.contains(name) by {
                    if before.names.contains(name) {
                        let j = choose|j: int| 0 <= j < before.names.len() && before.names[j] == name;
                        assert(self@.names[j] == name);
                    }
                    if name == node_id@ {
                        assert(self@.names[before.names.len() as int] == name);
                    }
                    if self@.names.contains(name) {
                        let j = choose|j: int| 0 <= j < self@.names.len() && self@.names[j] == name;
                        if j < before.names.len() {
                            assert(before.names[j] == name);
                        }
                    }
                }
                assert(self@.names.no_duplicates()) by {
                    assert forall|i: int, j: int|
                        0 <= i < self@.names.len() && 0 <= j < self@.names.len() && i != j implies self@.names[i]
                        != self@.names[j] by {
                        if i < before.names.len() {
                            assert(before.names.contains(before.names[i]));
                        }
                        if j < before.names.len() {
                            assert(before.names.contains(before.names[j]));
                        }
                    }
                }
            }
            true
        } else {
            false
        }
    }

    /// The name of the node with the index.
    pub fn lookup(&self, node_id: usize) -> (r: &str)
        requires
            self.wf(),
            node_id < self@.names.len(),
        ensures
            r@ == self@.names[node_id as int],
    {
        self.names[node_id].as_str()
    }

    /// The value of the node with the name; a node with a default value is
    /// added where no node has the name. What is written through the
    /// reference becomes the value of the node.
    pub fn get_node(&mut self, node_id: &str) -> (r: &mut V) where V: Default
        requires
            old(self).wf(),
        ensures
            final(self).wf(),
            old(self)@.has_node(node_id@) ==> *r == old(self)@.values[old(self)@.node_index(
                node_id@,
            )] && final(self)@ == (GraphView {
                names: old(self)@.names,
                values: old(self)@.values.update(old(self)@.node_index(node_id@), *final(r)),
                edges: old(self)@.edges,
            }),
            !old(self)@.has_node(node_id@) ==> is_default(*r) && final(self)@.names == old(
                self,
            )@.names.push(node_id@) && final(self)@.values =~= old(self)@.values.push(*final(r))
                && final(self)@.edges == old(self)@.edges.push(Map::empty()),
    {
        let i = match self.find(node_id) {
            Some(i) => i,
            None => {
                let i = self.names.len();
                self.add_node(node_id, V::default());
                i
            },
        };
        &mut self.values[i]
    }

    /// The index of the node with the name; a node with a default value is
    /// added where no node has the name.
    fn ensure(&mut self, node_id: &str) -> (i: usize) where V: Default
        requires
            old(self).wf(),
        ensures
            final(self).wf(),
            exists|value: V|
                is_default(value) && final(self)@ == old(self)@.ensure_node(node_id@, value),
            final(self)@.has_node(node_id@),
            i == final(self)@.node_index(node_id@),
            i < final(self)@.names.len(),
    {
        let value = V::default();
        let ghost made = value;
        self.add_node(node_id, value);
        proof {
            assert(is_default(made) && self@ == old(self)@.ensure_node(node_id@, made));
            if !old(self)@.has_node(node_id@) {
                assert(self@.names[old(self)@.names.len() as int] == node_id@);
            }
        }
        match self.find(node_id) {
            Some(i) => i,
            None => 0,
        }
    }

    /// Sets the edge between the nodes with the two names, which are added
    /// with default values where they are missing.
    pub fn add_edge(&mut self, from: &str, to: &str, data: T) where V: Default
        requires
            old(self).wf(),
        ensures
            final(self).wf(),
            exists|a: V, b: V|
                {
                    let with_both = #[trigger] old(self)@.ensure_node(from@, a).ensure_node(to@, b);
                    is_default(a) && is_default(b) && final(self)@ == with_both.put_edge(
                        with_both.node_index(from@),
                        with_both.node_index(to@),
                        data,
                    )
                },
    {
        let i = self.ensure(from);
        let ghost with_from = self@;
        let j = self.ensure(to);
        let ghost with_both = self@;
        proof {
            let a = choose|a: V| is_default(a) && with_from == old(self)@.ensure_node(from@, a);
            let b = choose|b: V| is_default(b) && with_both == with_from.ensure_node(to@, b);
            assert(with_both == old(self)@.ensure_node(from@, a).ensure_node(to@, b));
            assert(with_from.names[i as int] == from@);
            assert(with_both.names[i as int] == from@);
            assert(with_both.names.contains(from@));
            assert(i == with_both.node_index(from@));
        }
        let edge = Edge { from: i, to: j, data };
        self.edges[i].insert(j, edge);
        proof {
            assert(self@.edges =~= with_both.put_edge(i as int, j as int, data).edges);
            assert(self@.names == with_both.names);
        }
    }

    /// The edges that leave the node with the name.
    pub fn edges(&self, node: &str) -> (r: &Edges<T>)
        requires
            self.wf(),
            self@.has_node(node@),
        ensures
            r@ == self@.edges[self@.node_index(node@)],
    {
        let i = match self.find(node) {
            Some(i) => i,
            None => 0,
        };
        &self.edges[i]
    }

    /// The edges that leave the node with the name. What is written through
    /// the reference becomes the edges of the node.
    pub fn edges_mut(&mut self, node: &str) -> (r: &mut Edges<T>)
        requires
            old(self).wf(),
            old(self)@.has_node(node@),
        ensures
            final(self).wf(),
            r@ == old(self)@.edges[old(self)@.node_index(node@)],
            final(self)@.names == old(self)@.names,
            final(self)@.values == old(self)@.values,
            final(self)@.edges =~= old(self)@.edges.update(
                old(self)@.node_index(node@),
                final(r)@,
            ),
    {
        let i = match self.find(node) {
            Some(i) => i,
            None => 0,
        };
        &mut self.edges[i]
    }

    /// The value of the edge between the nodes with the two names. Missing
    /// nodes are added with default values, and a missing edge with a
    /// default value. What is written through the reference becomes the
    /// value of the edge.
    pub fn edge(&mut self, from: &str, to: &str) -> (r: &mut T) where T: Default, V: Default
        requires
            old(self).wf(),
        ensures
            final(self).wf(),
            exists|a: V, b: V|
                {
                    let g = #[trigger] old(self)@.ensure_node(from@, a).ensure_node(to@, b);
                    let i = g.node_index(from@);
                    let j = g.node_index(to@) as usize;
                    &&& is_default(a) && is_default(b)
                    &&& final(self)@.names == g.names
                    &&& final(self)@.values == g.values
                    &&& g.edges[i].contains_key(j) ==> *r == g.edges[i][j].data && final(self)@.edges
                        =~= g.edges.update(
                        i,
                        g.edges[i].insert(
                            j,
                            Edge { from: g.edges[i][j].from, to: g.edges[i][j].to, data: *final(r) },
                        ),
                    )
                    &&& !g.edges[i].contains_key(j) ==> is_default(*r) && final(self)@.edges =~= g.edges.update(
                        i,
                        g.edges[i].insert(j, Edge { from: i as usize, to: j, data: *final(r) }),
                    )
                },
    {
        let i = self.ensure(from);
        let ghost with_from = self@;
        let j = self.ensure(to);
        let ghost with_both = self@;
        proof {
            let a = choose|a: V| is_default(a) && with_from == old(self)@.ensure_node(from@, a);
            let b = choose|b: V| is_default(b) && with_both == with_from.ensure_node(to@, b);
            assert(with_both == old(self)@.ensure_node(from@, a).ensure_node(to@, b));
            assert(with_from.names[i as int] == from@);
            assert(with_both.names[i as int] == from@);
            assert(with_both.names.contains(from@));
            assert(i == with_both.node_index(from@));
        }
        let fresh = Edge { from: i, to: j, data: T::default() };
        &mut self.edges[i].entry(j).or_insert(fresh).data
    }

    /// The value of the node with the index.
    pub fn value_at(&self, node_id: usize) -> (r: &V)
        requires
            self.wf(),
            node_id < self@.names.len(),
        ensures
            *r == self@.values[node_id as int],
    {
        &self.values[node_id]
    }

    /// The edges that leave the node with the index.
    pub fn edges_at(&self, node_id: usize) -> (r: &Edges<T>)
        requires
            self.wf(),
            node_id < self@.names.len(),
        ensures
            r@ == self@.edges[node_id as int],
    {
        &self.edges[node_id]
    }
}

} // verus!

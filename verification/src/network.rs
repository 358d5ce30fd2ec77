//! The graph: a map from node identifier to the sequence of its neighbours.

use std::collections::HashMap;
use vstd::prelude::*;
use vstd::std_specs::iter::IteratorSpec;

verus! {

broadcast use vstd::std_specs::hash::group_hash_axioms;

/// The mathematical model of a graph: each registered node with its
/// neighbours in insertion order, repetitions kept.
pub type Adjacency = Map<usize, Seq<usize>>;

/// The neighbours recorded for `node`; none for a node that is not registered.
pub open spec fn neighbors_of(g: Adjacency, node: usize) -> Seq<usize> {
    if g.contains_key(node) {
        g[node]
    } else {
        Seq::empty()
    }
}

/// `g` after `v` was appended to the neighbours of `u`, registering `u` if needed.
pub open spec fn with_arc(g: Adjacency, u: usize, v: usize) -> Adjacency {
    g.insert(u, neighbors_of(g, u).push(v))
}

/// `g` after the undirected edge between `u` and `v` was recorded once more.
pub open spec fn with_edge(g: Adjacency, u: usize, v: usize) -> Adjacency {
    with_arc(with_arc(g, u, v), v, u)
}

/// `v` stands among the neighbours of the registered node `u`.
pub open spec fn has_arc(g: Adjacency, u: usize, v: usize) -> bool {
    g.contains_key(u) && g[u].contains(v)
}

/// Every arc of `g` is matched by the arc in the other direction.
pub open spec fn is_undirected(g: Adjacency) -> bool {
    forall|u: usize, v: usize| #[trigger] has_arc(g, u, v) ==> has_arc(g, v, u)
}

/// Recording an edge keeps an undirected graph undirected.
pub proof fn lemma_edge_keeps_undirected(g: Adjacency, u: usize, v: usize)
    requires
        is_undirected(g),
    ensures
        is_undirected(with_edge(g, u, v)),
{
    let g1 = with_arc(g, u, v);
    let g2 = with_edge(g, u, v);
    let nu = neighbors_of(g, u);
    let nv = neighbors_of(g1, v);
    assert(nu.push(v)[nu.len() as int] == v);
    assert(nv.push(u)[nv.len() as int] == u);
    assert(g1[u] == nu.push(v));
    assert(g2[v] == nv.push(u));
    assert(has_arc(g2, v, u));
    assert(has_arc(g2, u, v)) by {
        if u != v {
            assert(g2[u] == g1[u]);
        } else {
            assert(nv[nu.len() as int] == v);
            assert(nv.push(u)[nu.len() as int] == v);
        }
    }
    assert forall|x: usize, y: usize| #[trigger] has_arc(g2, x, y) implies has_arc(g2, y, x) by {
        if !((x == u && y == v) || (x == v && y == u)) {
            let i = choose|i: int| 0 <= i < g2[x].len() && g2[x][i] == y;
            if x == v {
                assert(i < nv.len());
                assert(nv[i] == y);
                if x == u {
                    assert(i < nu.len());
                    assert(nu[i] == y);
                }
            } else if x == u {
                assert(i < nu.len());
                assert(nu[i] == y);
            }
            assert(g.contains_key(x) && g[x][i] == y);
            assert(has_arc(g, x, y));
            assert(has_arc(g, y, x));
            let j = choose|j: int| 0 <= j < g[y].len() && g[y][j] == x;
            assert(g1.contains_key(y) && g1[y][j] == x);
            assert(g2.contains_key(y) && g2[y][j] == x);
        }
    }
}

/// Recording an edge between two different nodes raises the degree of each
/// by exactly one, whether or not the edge was there before, and changes no
/// other node.
pub proof fn lemma_edge_raises_degrees(g: Adjacency, u: usize, v: usize)
    requires
        u != v,
    ensures
        neighbors_of(with_edge(g, u, v), u).len() == neighbors_of(g, u).len() + 1,
        neighbors_of(with_edge(g, u, v), v).len() == neighbors_of(g, v).len() + 1,
        forall|w: usize|
            w != u && w != v ==> with_edge(g, u, v).contains_key(w) == g.contains_key(w)
                && #[trigger] neighbors_of(with_edge(g, u, v), w) == neighbors_of(g, w),
{
}

/// Recording a loop at a node raises its degree by two: the node becomes
/// its own neighbour once for each end of the edge.
pub proof fn lemma_loop_raises_degree(g: Adjacency, u: usize)
    ensures
        neighbors_of(with_edge(g, u, u), u).len() == neighbors_of(g, u).len() + 2,
{
}

/// Recording an edge registers both its ends and no other node.
pub proof fn lemma_edge_registers_ends(g: Adjacency, u: usize, v: usize)
    ensures
        with_edge(g, u, v).dom() == g.dom().insert(u).insert(v),
{
    assert(with_edge(g, u, v).dom() =~= g.dom().insert(u).insert(v));
}

/// `g` has finitely many nodes, and their number and the length of each
/// neighbour sequence fit a machine word: what every `Graph` is as a model.
pub open spec fn is_finite_graph(g: Adjacency) -> bool {
    &&& g.dom().finite()
    &&& g.dom().len() <= usize::MAX
    &&& forall|k: usize| g.contains_key(k) ==> (#[trigger] g[k]).len() <= usize::MAX
}

/// The keys of `map`, each once, in the order in which the map hands them
/// out, which is not fixed.
pub fn key_list<V>(map: &HashMap<usize, V>) -> (list: Vec<usize>)
    ensures
        list@.no_duplicates(),
        list@.to_set() == map@.dom(),
        list@.len() == map@.dom().len(),
{
    let mut list: Vec<usize> = Vec::new();
    let ghost all = map.keys().remaining();
    for k in it: map.keys()
        invariant
            it.seq() == all,
            list@.len() == it.index(),
            forall|j: int| 0 <= j < list@.len() ==> list@[j] == *all[j],
    {
        list.push(*k);
    }
    proof {
        assert(list@ =~= all.unref());
    }
    list
}

/// An undirected graph as adjacency lists.
pub struct Graph {
    pub adj_list: HashMap<usize, Vec<usize>>,
}

impl View for Graph {
    type V = Adjacency;

    open spec fn view(&self) -> Adjacency {
        Map::new(
            |k: usize| self.adj_list@.contains_key(k),
            |k: usize| self.adj_list@[k]@,
        )
    }
}

impl Graph {
    /// The model of a graph is finite.
    pub proof fn lemma_view_is_finite(&self)
        ensures
            is_finite_graph(self@),
    {
        assert(self@.dom() =~= self.adj_list@.dom());
        assert(self.adj_list@.dom().len() == self.adj_list.len());
        assert forall|k: usize| self@.contains_key(k) implies (#[trigger] self@[k]).len()
            <= usize::MAX by {
            assert(self.adj_list@[k].len() == self.adj_list@[k]@.len());
        }
    }

    /// The graph without nodes.
    pub fn new() -> (g: Graph)
        ensures
            g@ == Map::<usize, Seq<usize>>::empty(),
            is_undirected(g@),
    {
        let g = Graph { adj_list: HashMap::new() };
        assert(g@ =~= Map::<usize, Seq<usize>>::empty());
        g
    }

    fn add_arc(&mut self, u: usize, v: usize)
        ensures
            final(self)@ == with_arc(old(self)@, u, v),
    {
        self.adj_list.entry(u).or_insert(Vec::new()).push(v);
        assert(self@ =~= with_arc(old(self)@, u, v));
    }

    /// Records the undirected edge between `u` and `v`: `v` becomes the last
    /// neighbour of `u`, then `u` the last neighbour of `v`. Nothing is
    /// deduplicated, so a repeated edge is recorded again.
    pub fn add_edge(&mut self, u: usize, v: usize)
        ensures
            final(self)@ == with_edge(old(self)@, u, v),
            u != v ==> neighbors_of(final(self)@, u).len() == neighbors_of(old(self)@, u).len() + 1
                && neighbors_of(final(self)@, v).len() == neighbors_of(old(self)@, v).len() + 1,
            u == v ==> neighbors_of(final(self)@, u).len() == neighbors_of(old(self)@, u).len() + 2,
            is_undirected(old(self)@) ==> is_undirected(final(self)@),
    {
        proof {
            if is_undirected(self@) {
                lemma_edge_keeps_undirected(self@, u, v);
            }
            if u != v {
                lemma_edge_raises_degrees(self@, u, v);
            } else {
                lemma_loop_raises_degree(self@, u);
            }
        }
        self.add_arc(u, v);
        self.add_arc(v, u);
    }

    /// The number of neighbour entries of `node`, 0 for a node that is not registered.
    pub fn degree(&self, node: usize) -> (d: usize)
        ensures
            d == neighbors_of(self@, node).len(),
    {
        match self.adj_list.get(&node) {
            Some(neighbors) => neighbors.len(),
            None => 0,
        }
    }

    /// The registered nodes, each once, in the order in which the map hands
    /// them out, which is not fixed.
    pub fn nodes(&self) -> (list: Vec<usize>)
        ensures
            list@.no_duplicates(),
            list@.to_set() == self@.dom(),
            list@.len() == self@.dom().len(),
    {
        proof {
            assert(self@.dom() =~= self.adj_list@.dom());
        }
        key_list(&self.adj_list)
    }

    /// The number of registered nodes.
    pub fn num_nodes(&self) -> (n: usize)
        ensures
            n == self@.dom().len(),
    {
        assert(self@.dom() =~= self.adj_list@.dom());
        self.adj_list.len()
    }
}

} // verus!

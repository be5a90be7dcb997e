//! Laws that relate the operations of a graph to one another.

use vstd::prelude::*;
use std::hash::Hash;
use crate::edge::Edge;
use crate::error::GraphError;
use crate::graph::{graph_types, Graph};
use crate::graphs::adj_list_graph::AdjListGraph;
use crate::ids::id_model;
use crate::kruskal_run::tags_match;
use crate::model::{lemma_arc_inserted, Adjacency};
use crate::spanning::{has_components, lemma_finer_tags};
use crate::walks::connected;

verus! {

/// A vertex is in the graph as soon as it is inserted.
pub proof fn lemma_vertex_present_after_insertion<N>(adj: Adjacency<N>, v: N)
    ensures
        adj.with_node(v).has_node(v),
{
}

/// A vertex that is in the graph stays in it, whatever vertex, arc or
/// undirected edge is inserted afterwards.
pub proof fn lemma_vertex_stays<N>(adj: Adjacency<N>, v: N, u: N, a: N, b: N, w: i32)
    requires
        adj.has_node(v),
    ensures
        adj.with_node(u).has_node(v),
        adj.with_arc(a, b, w).has_node(v),
        adj.with_edge(a, b, w).has_node(v),
{
}

/// After an undirected edge of weight `w` is inserted between two vertices
/// of the graph, each is adjacent to the other, and the weight between them
/// is `w` in both directions; provided that no arc of another weight joined
/// them before, since the first arc inserted is the one that counts.
pub proof fn lemma_undirected_edge<N>(adj: Adjacency<N>, u: N, v: N, w: i32)
    requires
        adj.has_node(u),
        adj.has_node(v),
        adj.has_arc(u, v) ==> adj.arc_weight(u, v) == w,
        adj.has_arc(v, u) ==> adj.arc_weight(v, u) == w,
    ensures
        adj.with_edge(u, v, w).has_arc(u, v),
        adj.with_edge(u, v, w).has_arc(v, u),
        adj.with_edge(u, v, w).arc_weight(u, v) == w,
        adj.with_edge(u, v, w).arc_weight(v, u) == w,
{
    let middle = adj.with_arc(u, v, w);
    lemma_arc_inserted(adj, u, v, w, u, v);
    lemma_arc_inserted(adj, u, v, w, v, u);
    lemma_arc_inserted(middle, v, u, w, u, v);
    lemma_arc_inserted(middle, v, u, w, v, u);
}

/// Asking twice whether two vertices are adjacent gives the same answer,
/// when the graph is not changed in between.
pub proof fn lemma_is_adjacent_repeats<N: Eq + Hash + Clone, E: Edge<N> + Clone, G: Graph<N, E>>(
    g: &G,
    u: &N,
    v: &N,
    first: bool,
    second: bool,
)
    requires
        graph_types::<N, E>(),
        g.wf(),
        call_ensures(G::is_adjacent, (g, u, v), first),
        call_ensures(G::is_adjacent, (g, u, v), second),
    ensures
        first == second,
{
}

/// Asking twice for the degree of a vertex gives the same answer, when the
/// graph is not changed in between.
pub proof fn lemma_degree_repeats<N: Eq + Hash + Clone, E: Edge<N> + Clone, G: Graph<N, E>>(
    g: &G,
    v: &N,
    first: Result<u32, GraphError>,
    second: Result<u32, GraphError>,
)
    requires
        graph_types::<N, E>(),
        g.wf(),
        call_ensures(G::degree, (g, v), first),
        call_ensures(G::degree, (g, v), second),
    ensures
        first == second,
{
}

/// Asking twice for the neighbours of a vertex gives the same vertices in
/// the same order, when the graph is not changed in between.
pub proof fn lemma_neighbours_repeat<N: Eq + Hash + Clone, E: Edge<N> + Clone, G: Graph<N, E>>(
    g: &G,
    v: &N,
    first: Vec<N>,
    second: Vec<N>,
)
    requires
        graph_types::<N, E>(),
        g.wf(),
        call_ensures(G::get_node_neighbours, (g, v), first),
        call_ensures(G::get_node_neighbours, (g, v), second),
    ensures
        first@ == second@,
{
}

/// The same three laws for the graph whose vertices carry data.
pub proof fn lemma_adj_list_queries_repeat<I: Eq + Hash + Clone, D>(
    g: &AdjListGraph<I, D>,
    u: &I,
    v: &I,
    adjacent: (bool, bool),
    degree: (Result<usize, GraphError>, Result<usize, GraphError>),
    neighbours: (Vec<I>, Vec<I>),
)
    requires
        id_model::<I>(),
        call_ensures(AdjListGraph::<I, D>::is_adjacent, (g, u, v), adjacent.0),
        call_ensures(AdjListGraph::<I, D>::is_adjacent, (g, u, v), adjacent.1),
        call_ensures(AdjListGraph::<I, D>::vertex_degree, (g, v), degree.0),
        call_ensures(AdjListGraph::<I, D>::vertex_degree, (g, v), degree.1),
        call_ensures(AdjListGraph::<I, D>::get_vertex_neighbours, (g, v), neighbours.0),
        call_ensures(AdjListGraph::<I, D>::get_vertex_neighbours, (g, v), neighbours.1),
    ensures
        adjacent.0 == adjacent.1,
        degree.0 == degree.1,
        neighbours.0@ == neighbours.1@,
{
}

/// A graph has one number of components only: whatever tags tell its
/// components apart, as many of them are in use.
pub proof fn lemma_components_counted_once<N>(adj: Adjacency<N>, c: int, d: int)
    requires
        adj.nodes().finite(),
        has_components(adj, c),
        has_components(adj, d),
    ensures
        c == d,
{
    let one = choose|tags: Map<N, N>| #[trigger]
        tags_match(adj, tags) && tags.values().finite() && tags.values().len() == c;
    let other = choose|tags: Map<N, N>| #[trigger]
        tags_match(adj, tags) && tags.values().finite() && tags.values().len() == d;
    assert forall|x: N, y: N|
        one.contains_key(x) && one.contains_key(y) && #[trigger] one[x]
            == #[trigger] one[y] implies other[x] == other[y] by {
        assert(connected(adj, x, y));
        assert(other.contains_key(x) && other.contains_key(y));
    }
    assert forall|x: N, y: N|
        other.contains_key(x) && other.contains_key(y) && #[trigger] other[x]
            == #[trigger] other[y] implies one[x] == one[y] by {
        assert(connected(adj, x, y));
        assert(one.contains_key(x) && one.contains_key(y));
    }
    lemma_finer_tags(one, other);
    lemma_finer_tags(other, one);
}

} // verus!

//! The graph capability: the operations that every concrete graph provides,
//! and the algorithms that are written once against them.

use vstd::prelude::*;
use std::collections::HashMap;
use std::hash::Hash;
use crate::cores::k_core_decomposition;
use crate::edge::Edge;
use crate::error::GraphError;
use crate::ids::{clone_model, clone_value, id_model};
use crate::kcore::{degrees_fit, is_core_listing, is_listing, is_undirected};
use crate::kruskal::{
    bare, forest_at, has_ends, is_greedy_forest, is_selection, pick_spanning_edges, taken,
    with_edges,
};
use crate::kruskal_run::lemma_forest_spans;
use crate::minimality::is_minimum_spanning_forest;
use crate::spanning::{
    has_components, is_one_piece, joins, lemma_arcs_within, lemma_graph_nodes, lemma_same_pieces,
};
use crate::model::Adjacency;
use crate::path::{GraphPath, PathModel};
use crate::shortest_paths::{
    diameter_path, dijkstras_shortest_path, dijkstras_shortest_paths, is_cut_off, misses_some,
    paths_from, shortest_from,
};
use crate::topology::Topology;
use crate::walks::{
    connected, is_diameter, is_disconnected, is_lower_bound, is_path, is_some_path, is_split,
    is_tame, is_tame_throughout, is_unreachable,
};

verus! {

/// The identifier type `N` and the edge type `E` behave as the contracts of
/// `Graph` assume: identifiers obey `id_model`, and the clone of an edge is
/// equal to the edge.
pub open spec fn graph_types<N: Eq + Hash + Clone, E: Clone>() -> bool {
    &&& id_model::<N>()
    &&& clone_model::<E>()
}

/// What a recorded edge is, as plain values: source, target and weight.
pub open spec fn edge_record<N: Clone, E: Edge<N>>(e: E) -> (N, N, i32) {
    (e.spec_source(), e.spec_target(), e.spec_weight())
}

/// The common operations on a graph, and the algorithms on it.
///
/// A graph is modelled by its adjacency structure (`adjacency`, of
/// `Topology`) and by the list of edges that were inserted (`edge_list`).
pub trait Graph<N: Eq + Hash + Clone, E: Edge<N> + Clone>: Topology<N> {
    /// Every edge that was inserted, as (source, target, weight), in
    /// insertion order.
    spec fn edge_list(&self) -> Seq<(N, N, i32)>;

    /// Every recorded edge carries a weight as an edge of type `E` stores
    /// it: an edge built from it anew carries the same weight.
    proof fn lemma_weights_settled(&self)
        requires
            self.wf(),
        ensures
            forall|i: int|
                0 <= i < self.edge_list().len() ==> E::stored_weight(
                    (#[trigger] self.edge_list()[i]).2,
                ) == self.edge_list()[i].2,
    ;

    /// Every arc between two vertices stems from a recorded edge that joins
    /// the two.
    proof fn lemma_arcs_recorded(&self, x: N, y: N)
        requires
            self.wf(),
            self.adjacency().has_node(x),
            self.adjacency().has_node(y),
            self.adjacency().has_arc(x, y),
        ensures
            exists|j: int|
                0 <= j < self.edge_list().len() && joins(#[trigger] self.edge_list()[j], x, y),
    ;

    /// Creates a graph without vertices.
    fn new() -> (g: Self)
        ensures
            g.wf(),
            g.adjacency() == Adjacency::<N>::empty(),
            g.edge_list() == Seq::<(N, N, i32)>::empty(),
    ;

    /// Inserts a vertex. If it exists already, it is overwritten: its
    /// outgoing arcs are dropped.
    fn add_node(&mut self, node_id: N)
        requires
            graph_types::<N, E>(),
            old(self).wf(),
        ensures
            final(self).wf(),
            final(self).adjacency() == old(self).adjacency().with_node(node_id),
            final(self).edge_list() == old(self).edge_list(),
    ;

    /// Inserts an undirected edge: an arc from `source` to `destination` and
    /// one back, each taking effect only where the vertex it leaves exists.
    /// The edge is recorded in the edge list in any case.
    fn add_edge(&mut self, source: N, destination: N, weight: i32)
        requires
            graph_types::<N, E>(),
            old(self).wf(),
        ensures
            final(self).wf(),
            final(self).adjacency() == old(self).adjacency().with_edge(
                source,
                destination,
                E::stored_weight(weight),
            ),
            final(self).edge_list() == old(self).edge_list().push(
                (source, destination, E::stored_weight(weight)),
            ),
    ;

    /// The identifiers of all vertices, each once, in no particular order.
    fn get_nodes(&self) -> (nodes: Vec<N>)
        requires
            graph_types::<N, E>(),
            self.wf(),
        ensures
            nodes@.no_duplicates(),
            nodes@.to_set() == self.adjacency().nodes(),
    ;

    /// The targets of the outgoing arcs of a vertex, in insertion order;
    /// empty when the vertex is absent.
    fn get_node_neighbours(&self, node_id: &N) -> (neighbours: Vec<N>)
        requires
            graph_types::<N, E>(),
            self.wf(),
        ensures
            neighbours@ == self.adjacency().neighbours(*node_id),
    ;

    /// The first edge inserted from `source` to `destination`.
    fn get_edge(&self, source: &N, destination: &N) -> (r: Result<E, GraphError>)
        requires
            graph_types::<N, E>(),
            self.wf(),
        ensures
            match r {
                Ok(e) => {
                    &&& self.adjacency().has_arc(*source, *destination)
                    &&& e.spec_source() == *source
                    &&& e.spec_target() == *destination
                    &&& e.spec_weight() == self.adjacency().arc_weight(*source, *destination)
                },
                Err(err) => {
                    &&& !self.adjacency().has_arc(*source, *destination)
                    &&& err == if self.adjacency().has_node(*source) {
                        GraphError::NoEdge
                    } else {
                        GraphError::InvalidVertex
                    }
                },
            },
    ;

    /// Every edge that was inserted, in insertion order.
    fn get_edges(&self) -> (edges: Vec<E>)
        requires
            graph_types::<N, E>(),
            self.wf(),
        ensures
            edges@.map_values(|e: E| edge_record(e)) == self.edge_list(),
    ;

    /// Whether an arc leaves `source` and enters `destination`.
    fn is_adjacent(&self, source: &N, destination: &N) -> (r: bool)
        requires
            graph_types::<N, E>(),
            self.wf(),
        ensures
            r == self.adjacency().has_arc(*source, *destination),
    ;

    /// Whether the vertex is in the graph.
    fn is_node_in_graph(&self, node: &N) -> (r: bool)
        requires
            graph_types::<N, E>(),
            self.wf(),
        ensures
            r == self.adjacency().has_node(*node),
    ;

    /// The number of outgoing arcs of a vertex (capped at `u32::MAX`); fails
    /// when the vertex is absent.
    fn degree(&self, node: &N) -> (r: Result<u32, GraphError>)
        requires
            graph_types::<N, E>(),
            self.wf(),
        ensures
            r == if self.adjacency().has_node(*node) {
                Ok::<u32, GraphError>(
                    if self.adjacency().degree(*node) <= u32::MAX {
                        self.adjacency().degree(*node) as u32
                    } else {
                        u32::MAX
                    },
                )
            } else {
                Err::<u32, GraphError>(GraphError::InvalidVertex)
            },
    ;

    /// Dijkstra's algorithm from `source`, ended as soon as the distance of
    /// `destination` is final.
    ///
    /// Returns a walk from `source` to `destination` that passes no vertex
    /// twice, with its weight. When no weight in the graph is negative, no
    /// walk between the two weighs less.
    ///
    /// Fails with `InvalidVertex` when one of the two is not in the graph,
    /// and with `Unreachable` when the algorithm finds no walk. Where the
    /// weights are tame (no sum along a walk from `source` leaves the range
    /// of the distances), that is exactly when no walk leads from `source`
    /// to `destination`; when no weight is negative, exactly when none does
    /// below the distance `i32::MAX`.
    fn dijkstras_shortest_path(&self, source: &N, destination: &N) -> (r: Result<
        GraphPath<N>,
        GraphError,
    >)
        requires
            graph_types::<N, E>(),
            self.wf(),
        ensures
            r == Err::<GraphPath<N>, GraphError>(GraphError::InvalidVertex)
                <==> !self.adjacency().has_node(*source) || !self.adjacency().has_node(
                *destination,
            ),
            r matches Err(e) ==> e == GraphError::InvalidVertex || e == GraphError::Unreachable,
            r matches Ok(p) ==> is_path(self.adjacency(), *source, *destination, p@) && p@.distance
                < i32::MAX,
            self.adjacency().has_node(*source) && *source == *destination ==> (r matches Ok(p)
                && p@ == (PathModel { distance: 0, path: seq![*source] })),
            self.adjacency().nonnegative() ==> (r matches Ok(p) ==> is_lower_bound(
                self.adjacency(),
                *source,
                *destination,
                p@.distance as int,
            )),
            self.adjacency().nonnegative() ==> (r == Err::<GraphPath<N>, GraphError>(
                GraphError::Unreachable,
            ) <==> self.adjacency().has_node(*source) && self.adjacency().has_node(*destination)
                && is_unreachable(self.adjacency(), *source, *destination)),
            is_tame(self.adjacency(), *source) ==> (r == Err::<GraphPath<N>, GraphError>(
                GraphError::Unreachable,
            ) <==> self.adjacency().has_node(*source) && self.adjacency().has_node(*destination)
                && !connected(self.adjacency(), *source, *destination)),
    {
        dijkstras_shortest_path(self, source, destination)
    }

    /// Dijkstra's algorithm from `source`, run until every distance is
    /// final.
    ///
    /// Returns, for every vertex of the graph, a walk from `source` to it
    /// that passes no vertex twice, with its weight; when no weight in the
    /// graph is negative, each is a shortest one.
    ///
    /// Fails with `InvalidVertex` when `source` is not in the graph, and
    /// with `Unreachable` when the algorithm finds no walk to some vertex.
    /// Where the weights are tame, that is exactly when no walk leads from
    /// `source` to some vertex; when no weight is negative, exactly when
    /// some vertex cannot be reached below the distance `i32::MAX`.
    fn dijkstras_shortest_paths(&self, source: &N) -> (r: Result<
        HashMap<N, GraphPath<N>>,
        GraphError,
    >)
        requires
            graph_types::<N, E>(),
            self.wf(),
        ensures
            (r matches Err(e) && e == GraphError::InvalidVertex) <==> !self.adjacency().has_node(
                *source,
            ),
            r matches Err(e) ==> e == GraphError::InvalidVertex || e == GraphError::Unreachable,
            r matches Ok(paths) ==> paths_from(self.adjacency(), *source, paths@),
            self.adjacency().nonnegative() ==> (r matches Ok(paths) ==> shortest_from(
                self.adjacency(),
                *source,
                paths@,
            )),
            self.adjacency().nonnegative() ==> ((r matches Err(e) && e == GraphError::Unreachable)
                <==> self.adjacency().has_node(*source) && misses_some(
                self.adjacency(),
                *source,
            )),
            is_tame(self.adjacency(), *source) ==> ((r matches Err(e) && e
                == GraphError::Unreachable) <==> self.adjacency().has_node(*source) && is_cut_off(
                self.adjacency(),
                *source,
            )),
    {
        dijkstras_shortest_paths(self, source)
    }

    /// The diameter of the graph: the longest among the shortest walks
    /// between any two vertices, with ties going to the walk met first.
    ///
    /// For a graph without vertices the empty path is returned. When no
    /// weight is negative, what is returned otherwise is a shortest walk
    /// between its ends that no shortest walk exceeds.
    ///
    /// Fails with `Unreachable` when the algorithm finds no walk between
    /// some two vertices. Where the weights are tame, that is exactly when
    /// no walk leads from some vertex to some other; when no weight is
    /// negative, exactly when some vertex cannot be reached from some other
    /// below the distance `i32::MAX`.
    fn diameter_path(&self) -> (r: Result<GraphPath<N>, GraphError>)
        requires
            graph_types::<N, E>(),
            self.wf(),
        ensures
            r matches Err(e) ==> e == GraphError::Unreachable,
            r matches Ok(p) ==> if self.adjacency().nodes().len() == 0 {
                p@ == (PathModel { distance: 0, path: Seq::<N>::empty() })
            } else {
                is_some_path(self.adjacency(), p@)
            },
            self.adjacency().nonnegative() && self.adjacency().nodes().len() > 0 ==> (r matches Ok(
                p,
            ) ==> is_diameter(self.adjacency(), p@)),
            self.adjacency().nonnegative() ==> (r is Err <==> is_disconnected(self.adjacency())),
            is_tame_throughout(self.adjacency()) ==> (r is Err <==> is_split(self.adjacency())),
    {
        diameter_path(self)
    }

    /// The k-core decomposition of the graph, by peeling: vertices of least
    /// current degree are taken off one by one, and each time the degree of
    /// every neighbour that is still above it goes down by one.
    ///
    /// Returns, under each core number, the vertices that were assigned it,
    /// in the order in which they were taken off. Every vertex is listed
    /// once. When the graph is undirected (every arc enters a vertex of the
    /// graph, and as many arcs lead from one vertex to another as lead
    /// back) and no vertex has `i32::MAX` arcs or more, the number under
    /// which a vertex is listed is its core number:
    /// the greatest `k` for which the vertex lies in a set of vertices that
    /// each have `k` arcs or more into the set.
    fn k_core_decomposition(&self) -> (r: HashMap<u32, Vec<N>>)
        requires
            graph_types::<N, E>(),
            self.wf(),
        ensures
            is_listing(self.adjacency(), r@),
            is_undirected(self.adjacency()) && degrees_fit(self.adjacency()) ==> is_core_listing(
                self.adjacency(),
                r@,
            ),
    {
        k_core_decomposition(self)
    }

    /// Kruskal's algorithm: the edges are taken in the order of their
    /// weights, and an edge is accepted when it joins two vertices of the
    /// graph that the edges accepted before it do not connect; the run ends
    /// when one edge fewer than there are vertices is accepted, or no edge is
    /// left. Edges with an end that is not in the graph are passed over.
    ///
    /// Returns a new graph with the vertices of this one and exactly the
    /// accepted edges, each with the weight it has in this graph, in the
    /// order of their acceptance. The accepted edges
    /// are a minimum spanning forest of this graph: they form a forest,
    /// whatever an edge of this graph joins is connected in the new graph,
    /// and no spanning forest of this graph weighs less. Every edge that was
    /// not accepted closes a cycle with accepted edges that are no heavier.
    /// The new graph connects exactly what the edges of this graph connect.
    /// There are as many accepted edges as there are vertices, less the
    /// number of components into which the edges of this graph join its
    /// vertices: one fewer than there are vertices where this graph is in
    /// one piece, and then the new graph is in one piece too.
    fn kruskal_min_spanning_tree(&self) -> (mst: Self)
        requires
            graph_types::<N, E>(),
            self.wf(),
        ensures
            mst.wf(),
            mst.adjacency() == with_edges(bare(self.adjacency().nodes()), mst.edge_list()),
            exists|picks: Seq<usize>|
                #[trigger] taken(self.edge_list(), picks) == mst.edge_list()
                    && is_greedy_forest(self.adjacency().nodes(), self.edge_list(), picks)
                    && is_minimum_spanning_forest(
                    self.adjacency().nodes(),
                    self.edge_list(),
                    picks,
                ),
            forall|i: int|
                0 <= i < self.edge_list().len() && has_ends(
                    self.adjacency().nodes(),
                    #[trigger] self.edge_list()[i],
                ) ==> connected(mst.adjacency(), self.edge_list()[i].0, self.edge_list()[i].1),
            self.adjacency().nodes().len() > 0 ==> mst.edge_list().len()
                < self.adjacency().nodes().len(),
            has_components(
                with_edges(bare(self.adjacency().nodes()), self.edge_list()),
                self.adjacency().nodes().len() - mst.edge_list().len(),
            ),
            self.adjacency().nodes().len() > 0 && is_one_piece(
                with_edges(bare(self.adjacency().nodes()), self.edge_list()),
            ) ==> mst.edge_list().len() + 1 == self.adjacency().nodes().len(),
            forall|x: N, y: N|
                self.adjacency().has_node(x) && self.adjacency().has_node(y) ==> (
                #[trigger] connected(mst.adjacency(), x, y) <==> connected(
                    with_edges(bare(self.adjacency().nodes()), self.edge_list()),
                    x,
                    y,
                )),
            self.adjacency().nodes().len() > 0 && is_one_piece(self.adjacency())
                ==> mst.edge_list().len() + 1 == self.adjacency().nodes().len() && is_one_piece(
                mst.adjacency(),
            ),
    {
        let nodes: Vec<N> = self.get_nodes();
        let edges: Vec<E> = self.get_edges();
        let ghost all = self.adjacency().nodes();
        let ghost list = self.edge_list();
        let n: usize = nodes.len();
        proof {
            nodes@.unique_seq_to_set();
        }

        let mut records: Vec<(N, N, i32)> = Vec::new();
        let mut i: usize = 0;
        while i < edges.len()
            invariant
                graph_types::<N, E>(),
                i <= edges.len(),
                edges@.map_values(|e: E| edge_record(e)) == list,
                records@ == list.take(i as int),
            decreases edges.len() - i,
        {
            proof {
                assert(list[i as int] == edge_record(edges@[i as int]));
                assert(list.take(i + 1) =~= list.take(i as int).push(list[i as int]));
            }
            records.push((edges[i].get_source(), edges[i].get_target(), edges[i].get_weight()));
            i += 1;
        }
        proof {
            assert(list.take(edges.len() as int) =~= list);
        }
        let mst_edges: Vec<usize> = pick_spanning_edges(&nodes, &records);

        let mut mst: Self = Self::new();
        proof {
            assert(nodes@.take(0).to_set() =~= Set::<N>::empty());
            assert(bare::<N>(Set::empty()).arcs =~= Adjacency::<N>::empty().arcs);
        }
        let mut i: usize = 0;
        while i < n
            invariant
                graph_types::<N, E>(),
                n == nodes.len(),
                i <= n,
                nodes@.no_duplicates(),
                mst.wf(),
                mst.edge_list() == Seq::<(N, N, i32)>::empty(),
                mst.adjacency() == bare(nodes@.take(i as int).to_set()),
            decreases n - i,
        {
            mst.add_node(clone_value(&nodes[i]));
            proof {
                let shorter = nodes@.take(i as int);
                let longer = nodes@.take(i + 1);
                assert(longer =~= shorter.push(nodes@[i as int]));
                assert(longer.to_set() =~= shorter.to_set().insert(nodes@[i as int])) by {
                    assert forall|u: N| longer.to_set().contains(u) <==> shorter.to_set().insert(
                        nodes@[i as int],
                    ).contains(u) by {
                        if longer.contains(u) {
                            let j = choose|j: int| 0 <= j < longer.len() && longer[j] == u;
                            if j < i {
                                assert(shorter[j] == u);
                            }
                        }
                        if shorter.contains(u) {
                            let j = choose|j: int| 0 <= j < shorter.len() && shorter[j] == u;
                            assert(longer[j] == u);
                        }
                        if u == nodes@[i as int] {
                            assert(longer[i as int] == u);
                        }
                    }
                }
                assert(mst.adjacency().arcs =~= bare(longer.to_set()).arcs);
            }
            i += 1;
        }
        proof {
            assert(nodes@.take(n as int) =~= nodes@);
        }
        // the accepted edges keep the weights they have in this graph
        let ghost start = bare(all);
        let ghost chosen = taken(list, mst_edges@);
        proof {
            self.lemma_weights_settled();
        }
        let mut i: usize = 0;
        while i < mst_edges.len()
            invariant
                graph_types::<N, E>(),
                i <= mst_edges.len(),
                records@ == list,
                is_selection(mst_edges@, list.len()),
                chosen == taken(list, mst_edges@),
                forall|j: int|
                    0 <= j < list.len() ==> E::stored_weight((#[trigger] list[j]).2) == list[j].2,
                mst.wf(),
                mst.edge_list() == chosen.take(i as int),
                mst.adjacency() == with_edges(start, chosen.take(i as int)),
            decreases mst_edges.len() - i,
        {
            let position: usize = mst_edges[i];
            proof {
                let longer = chosen.take(i + 1);
                assert(longer.drop_last() =~= chosen.take(i as int));
                assert(longer =~= chosen.take(i as int).push(chosen[i as int]));
                assert(chosen[i as int] == list[position as int]);
            }
            mst.add_edge(
                clone_value(&records[position].0),
                clone_value(&records[position].1),
                records[position].2,
            );
            i += 1;
        }
        proof {
            assert(chosen.take(mst_edges@.len() as int) =~= chosen);
            assert(mst.adjacency() == forest_at(all, chosen, chosen.len() as int));
            assert forall|i: int| 0 <= i < list.len() && has_ends(all, #[trigger] list[i]) implies
                connected(mst.adjacency(), list[i].0, list[i].1) by {
                lemma_forest_spans(all, list, mst_edges@, i as usize);
            }
            assert forall|x: N, y: N| all.contains(x) && all.contains(y) implies (
            #[trigger] connected(mst.adjacency(), x, y) <==> connected(
                with_edges(bare(all), list),
                x,
                y,
            )) by {
                lemma_same_pieces(all, list, mst_edges@, x, y);
            }
            if n > 0 && is_one_piece(self.adjacency()) {
                assert forall|u: N, v: N|
                    self.adjacency().has_node(u) && self.adjacency().has_node(v)
                        && #[trigger] self.adjacency().has_arc(u, v) implies exists|j: int|
                    0 <= j < list.len() && joins(#[trigger] list[j], u, v) by {
                    self.lemma_arcs_recorded(u, v);
                }
                let graph = with_edges(bare(all), list);
                assert(list.take(list.len() as int) =~= list);
                lemma_graph_nodes(all, list, list.len() as int);
                assert forall|x: N, y: N| graph.has_node(x) && graph.has_node(y) implies
                    #[trigger] connected(graph, x, y) by {
                    assert(all.contains(x) && all.contains(y));
                    assert(connected(self.adjacency(), x, y));
                    lemma_arcs_within(self.adjacency(), all, list, x, y);
                }
                assert forall|x: N, y: N|
                    mst.adjacency().has_node(x) && mst.adjacency().has_node(y) implies
                    #[trigger] connected(mst.adjacency(), x, y) by {
                    lemma_graph_nodes(all, chosen, chosen.len() as int);
                    assert(all.contains(x) && all.contains(y));
                    assert(connected(graph, x, y));
                }
            }
        }
        mst
    }
}

} // verus!

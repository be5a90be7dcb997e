//! What the path and core algorithms need to know of a graph: its vertices,
//! and the arcs that leave each of them.

use vstd::prelude::*;
use std::hash::Hash;
use crate::error::GraphError;
use crate::ids::id_model;
use crate::model::Adjacency;

verus! {

/// Read access to the adjacency structure of a graph.
pub trait Topology<N: Eq + Hash + Clone>: Sized {
    /// The vertices and their outgoing arcs.
    spec fn adjacency(&self) -> Adjacency<N>;

    /// The representation is consistent. Every constructor and mutator
    /// establishes it.
    spec fn wf(&self) -> bool;

    /// The identifiers of all vertices, each once, in no particular order.
    fn vertex_ids(&self) -> (ids: Vec<N>)
        requires
            id_model::<N>(),
            self.wf(),
        ensures
            ids@.no_duplicates(),
            ids@.to_set() == self.adjacency().nodes(),
    ;

    /// The targets of the outgoing arcs of a vertex, in insertion order;
    /// empty when the vertex is absent.
    fn neighbour_ids(&self, vertex: &N) -> (neighbours: Vec<N>)
        requires
            id_model::<N>(),
            self.wf(),
        ensures
            neighbours@ == self.adjacency().neighbours(*vertex),
    ;

    /// The weight of the first arc inserted from `source` to `target`.
    /// Fails with `NoEdge` when there is none.
    fn weight_between(&self, source: &N, target: &N) -> (r: Result<i32, GraphError>)
        requires
            id_model::<N>(),
            self.wf(),
        ensures
            r == if self.adjacency().has_arc(*source, *target) {
                Ok::<i32, GraphError>(self.adjacency().arc_weight(*source, *target))
            } else {
                Err::<i32, GraphError>(GraphError::NoEdge)
            },
    ;

    /// Whether the vertex is in the graph.
    fn has_vertex(&self, vertex: &N) -> (r: bool)
        requires
            id_model::<N>(),
            self.wf(),
        ensures
            r == self.adjacency().has_node(*vertex),
    ;

    /// The number of outgoing arcs of a vertex; fails with `InvalidVertex`
    /// when the vertex is absent.
    fn out_degree(&self, vertex: &N) -> (r: Result<usize, GraphError>)
        requires
            id_model::<N>(),
            self.wf(),
        ensures
            match r {
                Ok(n) => self.adjacency().has_node(*vertex) && n == self.adjacency().degree(
                    *vertex,
                ),
                Err(e) => !self.adjacency().has_node(*vertex) && e == GraphError::InvalidVertex,
            },
    ;
}

} // verus!

//! An undirected graph stored as adjacency lists.

use vstd::prelude::*;
use std::collections::HashMap;
use std::hash::Hash;
use vstd::std_specs::iter::IteratorSpec;
use crate::edge::Edge;
use crate::error::GraphError;
use crate::graph::{edge_record, graph_types, Graph};
use crate::ids::{clone_value, id_model, same_id};
use crate::model::{is_first_arc, lemma_first_weight, Adjacency};
use crate::spanning::joins;
use crate::topology::Topology;

verus! {

/// The arcs that a list of edges stands for.
pub open spec fn arcs_of<N: Clone, E: Edge<N>>(list: Seq<E>) -> Seq<(N, i32)> {
    list.map_values(|e: E| (e.spec_target(), e.spec_weight()))
}

/// Some edge of the list joins `v` and `t`, one way or the other.
pub open spec fn is_recorded<N: Clone, E: Edge<N>>(edges: Seq<E>, v: N, t: N) -> bool {
    exists|j: int| 0 <= j < edges.len() && joins(edge_record(#[trigger] edges[j]), v, t)
}

/// An undirected graph represented by an adjacency list: each vertex is
/// mapped to the edges that leave it, and every inserted edge is recorded.
pub struct UndirectedAdjacencyListGraph<N: Eq + Hash + Clone, E: Edge<N> + Clone> {
    vertices: HashMap<N, Vec<E>>,
    edges: Vec<E>,
}

impl<N: Eq + Hash + Clone, E: Edge<N> + Clone> Topology<N> for UndirectedAdjacencyListGraph<N, E> {
    /// Each stored edge leaves the vertex under which it is stored, and a
    /// recorded edge joins its ends; no stored edge is directed; and the
    /// recorded edges carry weights as an edge of type `E` stores them.
    closed spec fn wf(&self) -> bool {
        &&& forall|v: N, i: int|
            self.vertices@.contains_key(v) && 0 <= i < self.vertices@[v]@.len() ==> (
            #[trigger] self.vertices@[v]@[i]).spec_source() == v
                && !self.vertices@[v]@[i].spec_directed() && is_recorded(
                self.edges@,
                v,
                self.vertices@[v]@[i].spec_target(),
            )
        &&& forall|i: int|
            0 <= i < self.edges@.len() ==> !(#[trigger] self.edges@[i]).spec_directed()
                && E::stored_weight(self.edges@[i].spec_weight()) == self.edges@[i].spec_weight()
    }

    closed spec fn adjacency(&self) -> Adjacency<N> {
        Adjacency {
            arcs: Map::new(
                |v: N| self.vertices@.contains_key(v),
                |v: N| arcs_of(self.vertices@[v]@),
            ),
        }
    }

    fn vertex_ids(&self) -> (ids: Vec<N>) {
        let mut ids: Vec<N> = Vec::new();
        let ghost keys = self.vertices.keys().remaining().unref();
        for key in it: self.vertices.keys()
            invariant
                id_model::<N>(),
                it.seq().unref() == keys,
                ids@.len() == it.index(),
                forall|j: int| 0 <= j < ids@.len() ==> ids@[j] == keys[j],
        {
            ids.push(clone_value(key));
        }
        proof {
            assert(ids@ =~= keys);
            let refs = self.vertices.keys().remaining();
            assert forall|i: int, j: int|
                0 <= i < keys.len() && 0 <= j < keys.len() && i != j implies keys[i] != keys[j] by {
                assert(refs[i] != refs[j]);
            }
        }
        ids
    }

    fn neighbour_ids(&self, node_id: &N) -> (neighbours: Vec<N>) {
        let mut neighbours: Vec<N> = Vec::new();
        match self.vertices.get(node_id) {
            Some(list) => {
                let mut i: usize = 0;
                while i < list.len()
                    invariant
                        id_model::<N>(),
                        i <= list.len(),
                        neighbours@ == arcs_of(list@).map_values(|a: (N, i32)| a.0).take(i as int),
                    decreases list.len() - i,
                {
                    neighbours.push(list[i].get_target());
                    proof {
                        let all = arcs_of(list@).map_values(|a: (N, i32)| a.0);
                        assert(all.take(i + 1) =~= all.take(i as int).push(all[i as int]));
                    }
                    i += 1;
                }
                proof {
                    let all = arcs_of(list@).map_values(|a: (N, i32)| a.0);
                    assert(all.take(list.len() as int) =~= all);
                }
                neighbours
            },
            None => {
                assert(self.adjacency().neighbours(*node_id) =~= Seq::empty());
                neighbours
            },
        }
    }

    #[verifier::loop_isolation(false)]
    fn weight_between(&self, source: &N, target: &N) -> (r: Result<i32, GraphError>) {
        match self.vertices.get(source) {
            Some(list) => {
                let ghost arcs = arcs_of(list@);
                let mut i: usize = 0;
                while i < list.len()
                    invariant
                        i <= list.len(),
                        forall|j: int| 0 <= j < i ==> (#[trigger] arcs[j]).0 != *target,
                    decreases list.len() - i,
                {
                    let end = list[i].get_target();
                    if same_id(&end, target) {
                        proof {
                            assert(arcs[i as int].0 == *target);
                            assert(is_first_arc(arcs, *target, i as int));
                            lemma_first_weight(arcs, *target, i as int);
                        }
                        return Ok(list[i].get_weight());
                    }
                    i += 1;
                }
                Err(GraphError::NoEdge)
            },
            None => Err(GraphError::NoEdge),
        }
    }

    fn has_vertex(&self, vertex: &N) -> (r: bool) {
        self.vertices.contains_key(vertex)
    }

    fn out_degree(&self, vertex: &N) -> (r: Result<usize, GraphError>) {
        match self.vertices.get(vertex) {
            Some(list) => Ok(list.len()),
            None => Err(GraphError::InvalidVertex),
        }
    }
}

impl<N: Eq + Hash + Clone, E: Edge<N> + Clone> Graph<N, E> for UndirectedAdjacencyListGraph<N, E> {
    closed spec fn edge_list(&self) -> Seq<(N, N, i32)> {
        self.edges@.map_values(|e: E| edge_record(e))
    }

    proof fn lemma_weights_settled(&self) {
        assert forall|i: int| 0 <= i < self.edge_list().len() implies E::stored_weight(
            (#[trigger] self.edge_list()[i]).2,
        ) == self.edge_list()[i].2 by {
            assert(self.edge_list()[i] == edge_record(self.edges@[i]));
        }
    }

    proof fn lemma_arcs_recorded(&self, x: N, y: N) {
        let list = self.vertices@[x]@;
        let arcs = arcs_of(list);
        let i = choose|i: int| 0 <= i < arcs.len() && (#[trigger] arcs[i]).0 == y;
        assert(list[i].spec_target() == y);
        assert(is_recorded(self.edges@, x, list[i].spec_target()));
        let j = choose|j: int|
            0 <= j < self.edges@.len() && joins(edge_record(#[trigger] self.edges@[j]), x, y);
        assert(self.edge_list()[j] == edge_record(self.edges@[j]));
    }

    fn new() -> (g: Self) {
        let g = UndirectedAdjacencyListGraph { vertices: HashMap::new(), edges: Vec::new() };
        assert(g.adjacency().arcs =~= Map::empty());
        assert(g.edge_list() =~= Seq::empty());
        g
    }

    fn add_node(&mut self, node_id: N) {
        self.vertices.insert(node_id, Vec::new());
        proof {
            assert(arcs_of::<N, E>(Seq::empty()) =~= Seq::empty());
            assert(self.adjacency().arcs =~= old(self).adjacency().with_node(node_id).arcs);
        }
    }

    fn add_edge(&mut self, source: N, destination: N, weight: i32) {
        let edge: E = E::new(clone_value(&source), clone_value(&destination), weight, false);
        let reverse_edge: E = E::new(
            clone_value(&destination),
            clone_value(&source),
            weight,
            false,
        );
        let ghost w = E::stored_weight(weight);
        let ghost start = self.adjacency();
        proof {
            E::lemma_stored_weight_settles(weight);
        }

        if self.vertices.contains_key(&source) {
            let mut list = self.vertices.remove(&source).unwrap();
            let ghost before = list@;
            list.push(clone_value(&edge));
            proof {
                assert(arcs_of(list@) =~= arcs_of(before).push((destination, w)));
            }
            self.vertices.insert(clone_value(&source), list);
        }
        proof {
            assert(self.adjacency().arcs =~= start.with_arc(source, destination, w).arcs);
        }
        let ghost middle = self.adjacency();

        if self.vertices.contains_key(&destination) {
            let mut list = self.vertices.remove(&destination).unwrap();
            let ghost before = list@;
            list.push(reverse_edge);
            proof {
                assert(arcs_of(list@) =~= arcs_of(before).push((source, w)));
            }
            self.vertices.insert(clone_value(&destination), list);
        }
        proof {
            assert(self.adjacency().arcs =~= middle.with_arc(destination, source, w).arcs);
        }

        self.edges.push(edge);
        proof {
            assert(self.edge_list() =~= old(self).edge_list().push((source, destination, w)));
            let last = old(self).edges@.len() as int;
            assert(edge_record(self.edges@[last]) == (source, destination, w));
            assert forall|v: N, i: int|
                self.vertices@.contains_key(v) && 0 <= i < self.vertices@[v]@.len() implies
                is_recorded(self.edges@, v, (#[trigger] self.vertices@[v]@[i]).spec_target()) by {
                let stored = self.vertices@[v]@[i];
                if old(self).vertices@.contains_key(v) && i < old(self).vertices@[v]@.len()
                    && stored == old(self).vertices@[v]@[i] {
                    assert(is_recorded(old(self).edges@, v, stored.spec_target()));
                    let j = choose|j: int|
                        0 <= j < old(self).edges@.len() && joins(
                            edge_record(#[trigger] old(self).edges@[j]),
                            v,
                            stored.spec_target(),
                        );
                    assert(self.edges@[j] == old(self).edges@[j]);
                } else {
                    assert(joins(edge_record(self.edges@[last]), v, stored.spec_target()));
                }
            }
        }
    }

    fn get_nodes(&self) -> (nodes: Vec<N>) {
        self.vertex_ids()
    }

    fn get_node_neighbours(&self, node_id: &N) -> (neighbours: Vec<N>) {
        self.neighbour_ids(node_id)
    }

    #[verifier::loop_isolation(false)]
    fn get_edge(&self, source: &N, destination: &N) -> (r: Result<E, GraphError>)
        ensures
            r matches Ok(e) ==> !e.spec_directed(),
    {
        match self.vertices.get(source) {
            Some(list) => {
                let ghost arcs = arcs_of(list@);
                let mut i: usize = 0;
                while i < list.len()
                    invariant
                        graph_types::<N, E>(),
                        i <= list.len(),
                        arcs == arcs_of(list@),
                        forall|j: int| 0 <= j < i ==> (#[trigger] arcs[j]).0 != *destination,
                    decreases list.len() - i,
                {
                    let target = list[i].get_target();
                    if same_id(&target, destination) {
                        proof {
                            assert(arcs[i as int].0 == *destination);
                            assert(is_first_arc(arcs, *destination, i as int));
                            lemma_first_weight(arcs, *destination, i as int);
                        }
                        return Ok(clone_value(&list[i]));
                    }
                    i += 1;
                }
                Err(GraphError::NoEdge)
            },
            None => {
                Err(GraphError::InvalidVertex)
            },
        }
    }

    fn get_edges(&self) -> (edges: Vec<E>)
        ensures
            forall|i: int| 0 <= i < edges@.len() ==> !(#[trigger] edges@[i]).spec_directed(),
    {
        let mut result: Vec<E> = Vec::new();
        let mut i: usize = 0;
        while i < self.edges.len()
            invariant
                graph_types::<N, E>(),
                self.wf(),
                i <= self.edges.len(),
                result@ == self.edges@.take(i as int),
            decreases self.edges.len() - i,
        {
            result.push(clone_value(&self.edges[i]));
            proof {
                assert(self.edges@.take(i + 1) =~= self.edges@.take(i as int).push(
                    self.edges@[i as int],
                ));
            }
            i += 1;
        }
        proof {
            assert(self.edges@.take(self.edges.len() as int) =~= self.edges@);
        }
        result
    }

    #[verifier::loop_isolation(false)]
    fn is_adjacent(&self, source: &N, destination: &N) -> (r: bool) {
        match self.vertices.get(source) {
            Some(list) => {
                let ghost arcs = arcs_of(list@);
                let mut i: usize = 0;
                while i < list.len()
                    invariant
                        graph_types::<N, E>(),
                        i <= list.len(),
                        arcs == arcs_of(list@),
                        forall|j: int| 0 <= j < i ==> (#[trigger] arcs[j]).0 != *destination,
                    decreases list.len() - i,
                {
                    let target = list[i].get_target();
                    if same_id(&target, destination) {
                        assert(arcs[i as int].0 == *destination);
                        return true;
                    }
                    i += 1;
                }
                false
            },
            None => false,
        }
    }

    fn is_node_in_graph(&self, node: &N) -> (r: bool) {
        self.has_vertex(node)
    }

    fn degree(&self, node: &N) -> (r: Result<u32, GraphError>) {
        match self.out_degree(node) {
            Ok(n) => {
                if n > u32::MAX as usize {
                    Ok(u32::MAX)
                } else {
                    Ok(n as u32)
                }
            },
            Err(e) => Err(e),
        }
    }
}

impl<N: Eq + Hash + Clone, E: Edge<N> + Clone> Clone for UndirectedAdjacencyListGraph<N, E> {
    /// A graph with the same vertices, arcs and edges.
    fn clone(&self) -> (r: Self)
        ensures
            graph_types::<N, E>() && self.wf() ==> r.wf() && r.adjacency() == self.adjacency()
                && r.edge_list() == self.edge_list(),
    {
        let edges = self.edges.clone();
        proof {
            if graph_types::<N, E>() {
                assert(edges@ =~= self.edges@) by {
                    assert forall|i: int| 0 <= i < edges@.len() implies
                        edges@[i] == self.edges@[i] by {
                        assert(cloned(self.edges@[i], edges@[i]));
                    }
                }
            }
        }
        UndirectedAdjacencyListGraph { vertices: self.vertices.clone(), edges }
    }
}

} // verus!

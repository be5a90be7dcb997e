//! A directed graph stored as adjacency lists, whose vertices carry data.

use vstd::prelude::*;
use std::collections::HashMap;
use std::hash::Hash;
use vstd::std_specs::iter::IteratorSpec;
use crate::error::GraphError;
use crate::ids::{clone_model, clone_value, id_model, same_id};
use crate::model::{is_first_arc, lemma_first_weight, Adjacency};
use crate::cores::k_core_decomposition;
use crate::ids::clone_ids;
use crate::kcore::{degrees_fit, is_core_listing, is_listing, is_undirected};
use crate::path::{GraphPath, PathModel};
use crate::shortest_paths::{
    diameter_path, dijkstras_shortest_path, dijkstras_shortest_paths, is_cut_off, misses_some,
    paths_from, shortest_from,
};
use crate::walks::{
    connected, is_diameter, is_disconnected, is_lower_bound, is_path, is_some_path, is_split,
    is_tame, is_tame_throughout, is_unreachable,
};
use crate::topology::Topology;

verus! {

/// One outgoing arc in an adjacency list: the vertex it enters, and its
/// weight.
#[derive(Debug)]
pub struct AdjListNode<I> {
    pub vertex_id: I,
    pub weight: i32,
}

impl<I> AdjListNode<I> {
    /// An arc of weight 0.
    pub fn new(vertex_id: I) -> (node: AdjListNode<I>)
        ensures
            node.vertex_id == vertex_id,
            node.weight == 0,
    {
        AdjListNode { vertex_id: vertex_id, weight: 0 }
    }

    /// An arc of the given weight.
    pub fn new_with_weight(vertex_id: I, weight: i32) -> (node: AdjListNode<I>)
        ensures
            node.vertex_id == vertex_id,
            node.weight == weight,
    {
        AdjListNode { vertex_id: vertex_id, weight: weight }
    }
}

impl<I: Clone> Clone for AdjListNode<I> {
    fn clone(&self) -> (r: Self)
        ensures
            clone_model::<I>() ==> r == *self,
    {
        let vertex_id = self.vertex_id.clone();
        assert(cloned(self.vertex_id, vertex_id));
        AdjListNode { vertex_id, weight: self.weight }
    }
}

/// A vertex: its identifier, its data, and its outgoing arcs in insertion
/// order.
#[derive(Debug)]
pub struct Vertex<I, D> {
    pub id: I,
    pub data: D,
    pub neighbours: Vec<AdjListNode<I>>,
}

impl<I, D> Vertex<I, D> {
    /// A vertex without outgoing arcs.
    pub fn new(id: I, data: D) -> (vertex: Vertex<I, D>)
        ensures
            vertex.id == id,
            vertex.data == data,
            vertex.neighbours@ == Seq::<AdjListNode<I>>::empty(),
    {
        Vertex { id: id, data: data, neighbours: Vec::new() }
    }
}

impl<I: Clone, D: Clone> Clone for Vertex<I, D> {
    fn clone(&self) -> (r: Self)
        ensures
            clone_model::<I>() && clone_model::<D>() ==> r.id == self.id && r.data == self.data
                && r.neighbours@ == self.neighbours@,
    {
        let id = self.id.clone();
        let data = self.data.clone();
        let neighbours = self.neighbours.clone();
        proof {
            assert(cloned(self.id, id));
            assert(cloned(self.data, data));
            if clone_model::<I>() {
                assert(neighbours@ =~= self.neighbours@) by {
                    assert forall|i: int| 0 <= i < neighbours@.len() implies neighbours@[i]
                        == self.neighbours@[i] by {
                        assert(cloned(self.neighbours@[i], neighbours@[i]));
                    }
                }
            }
        }
        Vertex { id, data, neighbours }
    }
}

/// One core of a k-core decomposition: a core number, and the vertices that
/// have it.
#[derive(Debug)]
pub struct KCoreDecomposition<I> {
    pub k: u32,
    pub vertices: Vec<I>,
}

/// The cores hold what the lists hold: one core for each core number that
/// has a list, with the vertices of that list in their order.
pub open spec fn cores_of<I>(cores: Seq<KCoreDecomposition<I>>, lists: Map<u32, Vec<I>>) -> bool {
    &&& forall|j: int|
        0 <= j < cores.len() ==> lists.contains_key((#[trigger] cores[j]).k) && cores[j].vertices@
            == lists[cores[j].k]@
    &&& forall|k: u32|
        lists.contains_key(k)
            ==> exists|j: int| 0 <= j < cores.len() && (#[trigger] cores[j]).k == k
    &&& forall|i: int, j: int|
        0 <= i < j < cores.len() ==> (#[trigger] cores[i]).k != (#[trigger] cores[j]).k
}

/// The arcs that an adjacency list stands for.
pub open spec fn arcs_in<I>(list: Seq<AdjListNode<I>>) -> Seq<(I, i32)> {
    list.map_values(|node: AdjListNode<I>| (node.vertex_id, node.weight))
}

/// A directed graph represented by adjacency lists: each vertex identifier is
/// mapped to the data of the vertex and to its outgoing arcs.
pub struct AdjListGraph<I, D> {
    vertices: HashMap<I, Vertex<I, D>>,
}

impl<I: Eq + Hash + Clone, D> AdjListGraph<I, D> {
    /// The vertices and their outgoing arcs.
    pub closed spec fn adjacency(&self) -> Adjacency<I> {
        Adjacency {
            arcs: Map::new(
                |v: I| self.vertices@.contains_key(v),
                |v: I| arcs_in(self.vertices@[v].neighbours@),
            ),
        }
    }

    /// The data of each vertex.
    pub closed spec fn data(&self) -> Map<I, D> {
        Map::new(|v: I| self.vertices@.contains_key(v), |v: I| self.vertices@[v].data)
    }

    /// Creates a graph without vertices.
    pub fn new() -> (g: AdjListGraph<I, D>)
        ensures
            g.adjacency() == Adjacency::<I>::empty(),
            g.data() == Map::<I, D>::empty(),
    {
        let g = AdjListGraph { vertices: HashMap::new() };
        assert(g.adjacency().arcs =~= Map::empty());
        assert(g.data() =~= Map::empty());
        g
    }

    /// Creates a graph without vertices, with room for `capacity` of them.
    pub fn new_with_capacity(capacity: usize) -> (g: AdjListGraph<I, D>)
        ensures
            g.adjacency() == Adjacency::<I>::empty(),
            g.data() == Map::<I, D>::empty(),
    {
        let g = AdjListGraph { vertices: HashMap::with_capacity(capacity) };
        assert(g.adjacency().arcs =~= Map::empty());
        assert(g.data() =~= Map::empty());
        g
    }

    /// Inserts a vertex with its data. If it exists already, it is
    /// overwritten: the new data replace the old, and its outgoing arcs are
    /// dropped.
    pub fn add_vertex(&mut self, vertex_id: I, data: D)
        requires
            id_model::<I>(),
        ensures
            final(self).adjacency() == old(self).adjacency().with_node(vertex_id),
            final(self).data() == old(self).data().insert(vertex_id, data),
    {
        let vertex = Vertex::new(clone_value(&vertex_id), data);
        self.vertices.insert(vertex_id, vertex);
        proof {
            assert(arcs_in::<I>(Seq::empty()) =~= Seq::empty());
            assert(self.adjacency().arcs =~= old(self).adjacency().with_node(vertex_id).arcs);
            assert(self.data() =~= old(self).data().insert(vertex_id, data));
        }
    }

    /// Appends an arc of weight 1 from `start_vertex` to `end_vertex`.
    /// Nothing happens when `start_vertex` is absent; `end_vertex` need not
    /// exist.
    pub fn add_edge(&mut self, start_vertex: I, end_vertex: I)
        requires
            id_model::<I>(),
        ensures
            final(self).adjacency() == old(self).adjacency().with_arc(start_vertex, end_vertex, 1),
            final(self).data() == old(self).data(),
    {
        self.add_edge_with_weight(start_vertex, end_vertex, 1);
    }

    /// Appends an arc of weight 1 in each direction between the two
    /// vertices.
    pub fn add_undirected_edge(&mut self, start_vertex: I, end_vertex: I)
        requires
            id_model::<I>(),
        ensures
            final(self).adjacency() == old(self).adjacency().with_edge(start_vertex, end_vertex, 1),
            final(self).data() == old(self).data(),
    {
        self.add_edge(clone_value(&start_vertex), clone_value(&end_vertex));
        self.add_edge(end_vertex, start_vertex);
    }

    /// Appends an arc of the given weight from `start_vertex` to
    /// `end_vertex`. Nothing happens when `start_vertex` is absent;
    /// `end_vertex` need not exist.
    pub fn add_edge_with_weight(&mut self, start_vertex: I, end_vertex: I, weight: i32)
        requires
            id_model::<I>(),
        ensures
            final(self).adjacency() == old(self).adjacency().with_arc(
                start_vertex,
                end_vertex,
                weight,
            ),
            final(self).data() == old(self).data(),
    {
        let adj_list_node = AdjListNode::new_with_weight(end_vertex, weight);
        match self.vertices.remove(&start_vertex) {
            Some(vertex) => {
                let mut vertex = vertex;
                let ghost before = vertex.neighbours@;
                vertex.neighbours.push(adj_list_node);
                proof {
                    assert(arcs_in(vertex.neighbours@) =~= arcs_in(before).push(
                        (end_vertex, weight),
                    ));
                }
                self.vertices.insert(start_vertex, vertex);
            },
            None => {},
        }
        proof {
            assert(self.adjacency().arcs =~= old(self).adjacency().with_arc(
                start_vertex,
                end_vertex,
                weight,
            ).arcs);
            assert(self.data() =~= old(self).data());
        }
    }

    /// Appends an arc of the given weight in each direction between the two
    /// vertices.
    pub fn add_undirected_edge_with_weight(&mut self, start_vertex: I, end_vertex: I, weight: i32)
        requires
            id_model::<I>(),
        ensures
            final(self).adjacency() == old(self).adjacency().with_edge(
                start_vertex,
                end_vertex,
                weight,
            ),
            final(self).data() == old(self).data(),
    {
        self.add_edge_with_weight(clone_value(&start_vertex), clone_value(&end_vertex), weight);
        self.add_edge_with_weight(end_vertex, start_vertex, weight);
    }

    /// The identifiers of all vertices, each once, in no particular order.
    pub fn get_vertex_ids(&self) -> (ids: Vec<I>)
        requires
            id_model::<I>(),
        ensures
            ids@.no_duplicates(),
            ids@.to_set() == self.adjacency().nodes(),
    {
        let mut ids: Vec<I> = Vec::new();
        let ghost keys = self.vertices.keys().remaining().unref();
        for key in it: self.vertices.keys()
            invariant
                id_model::<I>(),
                it.seq().unref() == keys,
                ids@.len() == it.index(),
                forall|j: int| 0 <= j < ids@.len() ==> ids@[j] == keys[j],
        {
            ids.push(clone_value(key));
        }
        proof {
            assert(ids@ =~= keys);
            let refs = self.vertices.keys().remaining();
            assert forall|i: int, j: int|
                0 <= i < keys.len() && 0 <= j < keys.len() && i != j implies keys[i] != keys[j] by {
                assert(refs[i] != refs[j]);
            }
            assert(self.adjacency().nodes() =~= self.vertices@.dom());
        }
        ids
    }

    /// The data of a vertex, or `None` when the vertex is absent.
    pub fn get_vertex_data(&self, vertex_id: &I) -> (data: Option<&D>)
        requires
            id_model::<I>(),
        ensures
            match data {
                Some(d) => self.data().contains_key(*vertex_id) && *d == self.data()[*vertex_id],
                None => !self.data().contains_key(*vertex_id),
            },
    {
        match self.vertices.get(vertex_id) {
            Some(v) => Some(&v.data),
            None => None,
        }
    }

    /// The targets of the outgoing arcs of a vertex, in insertion order;
    /// empty when the vertex is absent.
    pub fn get_vertex_neighbours(&self, vertex_id: &I) -> (neighbours: Vec<I>)
        requires
            id_model::<I>(),
        ensures
            neighbours@ == self.adjacency().neighbours(*vertex_id),
    {
        let mut neighbour_ids: Vec<I> = Vec::new();
        match self.vertices.get(vertex_id) {
            Some(vertex) => {
                let list = &vertex.neighbours;
                let mut i: usize = 0;
                while i < list.len()
                    invariant
                        id_model::<I>(),
                        i <= list.len(),
                        neighbour_ids@ == arcs_in(list@).map_values(|a: (I, i32)| a.0).take(
                            i as int,
                        ),
                    decreases list.len() - i,
                {
                    neighbour_ids.push(clone_value(&list[i].vertex_id));
                    proof {
                        let all = arcs_in(list@).map_values(|a: (I, i32)| a.0);
                        assert(all.take(i + 1) =~= all.take(i as int).push(all[i as int]));
                    }
                    i += 1;
                }
                proof {
                    let all = arcs_in(list@).map_values(|a: (I, i32)| a.0);
                    assert(all.take(list.len() as int) =~= all);
                }
                neighbour_ids
            },
            None => {
                assert(self.adjacency().neighbours(*vertex_id) =~= Seq::empty());
                neighbour_ids
            },
        }
    }

    /// The weight of the first arc inserted from `start_vertex` to
    /// `end_vertex`. Fails with `NoEdge` when there is none.
    #[verifier::loop_isolation(false)]
    pub fn get_edge_weight(&self, start_vertex: &I, end_vertex: &I) -> (r: Result<i32, GraphError>)
        requires
            id_model::<I>(),
        ensures
            r == if self.adjacency().has_arc(*start_vertex, *end_vertex) {
                Ok::<i32, GraphError>(self.adjacency().arc_weight(*start_vertex, *end_vertex))
            } else {
                Err::<i32, GraphError>(GraphError::NoEdge)
            },
    {
        match self.vertices.get(start_vertex) {
            Some(vertex) => {
                let list = &vertex.neighbours;
                let ghost arcs = arcs_in(list@);
                let mut i: usize = 0;
                while i < list.len()
                    invariant
                        i <= list.len(),
                        forall|j: int| 0 <= j < i ==> (#[trigger] arcs[j]).0 != *end_vertex,
                    decreases list.len() - i,
                {
                    if same_id(&list[i].vertex_id, end_vertex) {
                        proof {
                            assert(arcs[i as int].0 == *end_vertex);
                            assert(is_first_arc(arcs, *end_vertex, i as int));
                            lemma_first_weight(arcs, *end_vertex, i as int);
                        }
                        return Ok(list[i].weight);
                    }
                    i += 1;
                }
                Err(GraphError::NoEdge)
            },
            None => Err(GraphError::NoEdge),
        }
    }

    /// Whether an arc leaves `start_vertex` and enters `end_vertex`.
    #[verifier::loop_isolation(false)]
    pub fn is_adjacent(&self, start_vertex: &I, end_vertex: &I) -> (r: bool)
        requires
            id_model::<I>(),
        ensures
            r == self.adjacency().has_arc(*start_vertex, *end_vertex),
    {
        match self.vertices.get(start_vertex) {
            Some(vertex) => {
                let list = &vertex.neighbours;
                let ghost arcs = arcs_in(list@);
                let mut i: usize = 0;
                while i < list.len()
                    invariant
                        i <= list.len(),
                        forall|j: int| 0 <= j < i ==> (#[trigger] arcs[j]).0 != *end_vertex,
                    decreases list.len() - i,
                {
                    if same_id(&list[i].vertex_id, end_vertex) {
                        assert(arcs[i as int].0 == *end_vertex);
                        return true;
                    }
                    i += 1;
                }
                false
            },
            None => false,
        }
    }

    /// Whether the vertex is in the graph.
    pub fn is_id_in_graph(&self, vertex_id: &I) -> (r: bool)
        requires
            id_model::<I>(),
        ensures
            r == self.adjacency().has_node(*vertex_id),
    {
        self.vertices.contains_key(vertex_id)
    }

    /// The number of outgoing arcs of a vertex; fails with `InvalidVertex`
    /// when the vertex is absent.
    pub fn vertex_degree(&self, vertex_id: &I) -> (r: Result<usize, GraphError>)
        requires
            id_model::<I>(),
        ensures
            match r {
                Ok(n) => self.adjacency().has_node(*vertex_id) && n == self.adjacency().degree(
                    *vertex_id,
                ),
                Err(e) => !self.adjacency().has_node(*vertex_id) && e
                    == GraphError::InvalidVertex,
            },
    {
        match self.vertices.get(vertex_id) {
            Some(vertex) => Ok(vertex.neighbours.len()),
            None => Err(GraphError::InvalidVertex),
        }
    }

    /// The shortest path from `source` to `destination` along the arcs of
    /// the graph, by Dijkstra's algorithm: a walk between the two that
    /// passes no vertex twice, with its weight, which is a shortest one when
    /// no weight is negative. Fails with `InvalidVertex` when one of the two
    /// is not in the graph, and with `Unreachable` when no walk is found.
    pub fn dijkstras_shortest_path(&self, source: &I, destination: &I) -> (r: Result<
        GraphPath<I>,
        GraphError,
    >)
        requires
            id_model::<I>(),
        ensures
            r == Err::<GraphPath<I>, GraphError>(GraphError::InvalidVertex)
                <==> !self.adjacency().has_node(*source) || !self.adjacency().has_node(
                *destination,
            ),
            r matches Err(e) ==> e == GraphError::InvalidVertex || e == GraphError::Unreachable,
            r matches Ok(p) ==> is_path(self.adjacency(), *source, *destination, p@) && p@.distance
                < i32::MAX,
            self.adjacency().has_node(*source) && *source == *destination ==> (r matches Ok(p)
                && p@ == (PathModel { distance: 0, path: seq![*source] })),
            self.adjacency().nonnegative() ==> (r matches Ok(p) ==> is_lower_bound(
                self.adjacency(),
                *source,
                *destination,
                p@.distance as int,
            )),
            self.adjacency().nonnegative() ==> (r == Err::<GraphPath<I>, GraphError>(
                GraphError::Unreachable,
            ) <==> self.adjacency().has_node(*source) && self.adjacency().has_node(*destination)
                && is_unreachable(self.adjacency(), *source, *destination)),
            is_tame(self.adjacency(), *source) ==> (r == Err::<GraphPath<I>, GraphError>(
                GraphError::Unreachable,
            ) <==> self.adjacency().has_node(*source) && self.adjacency().has_node(*destination)
                && !connected(self.adjacency(), *source, *destination)),
    {
        dijkstras_shortest_path(self, source, destination)
    }

    /// The shortest paths from `source` to every vertex along the arcs of
    /// the graph, by Dijkstra's algorithm. Fails with `InvalidVertex` when
    /// `source` is not in the graph, and with `Unreachable` when no walk to
    /// some vertex is found.
    pub fn dijkstras_shortest_paths(&self, source: &I) -> (r: Result<
        HashMap<I, GraphPath<I>>,
        GraphError,
    >)
        requires
            id_model::<I>(),
        ensures
            (r matches Err(e) && e == GraphError::InvalidVertex) <==> !self.adjacency().has_node(
                *source,
            ),
            r matches Err(e) ==> e == GraphError::InvalidVertex || e == GraphError::Unreachable,
            r matches Ok(paths) ==> paths_from(self.adjacency(), *source, paths@),
            self.adjacency().nonnegative() ==> (r matches Ok(paths) ==> shortest_from(
                self.adjacency(),
                *source,
                paths@,
            )),
            self.adjacency().nonnegative() ==> ((r matches Err(e) && e == GraphError::Unreachable)
                <==> self.adjacency().has_node(*source) && misses_some(
                self.adjacency(),
                *source,
            )),
            is_tame(self.adjacency(), *source) ==> ((r matches Err(e) && e
                == GraphError::Unreachable) <==> self.adjacency().has_node(*source) && is_cut_off(
                self.adjacency(),
                *source,
            )),
    {
        dijkstras_shortest_paths(self, source)
    }

    /// The diameter of the graph: the longest among the shortest paths
    /// between any two vertices. For a graph without vertices the empty
    /// path is returned. Fails with `Unreachable` when no walk is found
    /// between some two vertices.
    pub fn graph_diameter_path(&self) -> (r: Result<GraphPath<I>, GraphError>)
        requires
            id_model::<I>(),
        ensures
            r matches Err(e) ==> e == GraphError::Unreachable,
            r matches Ok(p) ==> if self.adjacency().nodes().len() == 0 {
                p@ == (PathModel { distance: 0, path: Seq::<I>::empty() })
            } else {
                is_some_path(self.adjacency(), p@)
            },
            self.adjacency().nonnegative() && self.adjacency().nodes().len() > 0 ==> (r matches Ok(
                p,
            ) ==> is_diameter(self.adjacency(), p@)),
            self.adjacency().nonnegative() ==> (r is Err <==> is_disconnected(self.adjacency())),
            is_tame_throughout(self.adjacency()) ==> (r is Err <==> is_split(self.adjacency())),
    {
        diameter_path(self)
    }

    /// The k-core decomposition of the graph, as a list of cores: one for
    /// each core number that some vertex has, in no particular order.
    pub fn k_core_decomposition(&self) -> (r: Vec<KCoreDecomposition<I>>)
        requires
            id_model::<I>(),
        ensures
            exists|lists: Map<u32, Vec<I>>|
                #[trigger] cores_of(r@, lists) && is_listing(self.adjacency(), lists) && (
                is_undirected(self.adjacency()) && degrees_fit(self.adjacency())
                    ==> is_core_listing(self.adjacency(), lists)),
    {
        let lists = k_core_decomposition(self);
        let mut cores: Vec<KCoreDecomposition<I>> = Vec::new();
        let ghost keys = lists.keys().remaining().unref();
        proof {
            let refs = lists.keys().remaining();
            assert forall|i: int, j: int|
                0 <= i < keys.len() && 0 <= j < keys.len() && i != j implies keys[i] != keys[j] by {
                assert(refs[i] != refs[j]);
            }
        }
        for key in it: lists.keys()
            invariant
                id_model::<I>(),
                it.seq().unref() == keys,
                keys.to_set() == lists@.dom(),
                keys.no_duplicates(),
                cores@.len() == it.index(),
                forall|j: int|
                    0 <= j < cores@.len()
                        ==> (#[trigger] cores@[j]).k == keys[j] && cores@[j].vertices@
                        == lists@[keys[j]]@,
        {
            proof {
                assert(keys[it.index()] == *key);
                assert(keys.to_set().contains(*key));
            }
            match lists.get(key) {
                Some(list) => {
                    cores.push(KCoreDecomposition { k: *key, vertices: clone_ids(list) });
                },
                None => {
                    assert(false);
                },
            }
        }
        proof {
            assert forall|j: int| 0 <= j < cores@.len() implies lists@.contains_key(
                (#[trigger] cores@[j]).k,
            ) && cores@[j].vertices@ == lists@[cores@[j].k]@ by {
                assert(keys.to_set().contains(keys[j]));
            }
            assert forall|k: u32| lists@.contains_key(k) implies exists|j: int|
                0 <= j < cores@.len() && (#[trigger] cores@[j]).k == k by {
                assert(keys.to_set().contains(k));
                let j = choose|j: int| 0 <= j < keys.len() && keys[j] == k;
                assert(cores@[j].k == k);
            }
            assert(cores_of(cores@, lists@));
        }
        cores
    }
}

impl<I: Eq + Hash + Clone, D> Topology<I> for AdjListGraph<I, D> {
    open spec fn adjacency(&self) -> Adjacency<I> {
        self.adjacency()
    }

    open spec fn wf(&self) -> bool {
        true
    }

    fn vertex_ids(&self) -> (ids: Vec<I>) {
        self.get_vertex_ids()
    }

    fn neighbour_ids(&self, vertex: &I) -> (neighbours: Vec<I>) {
        self.get_vertex_neighbours(vertex)
    }

    fn weight_between(&self, source: &I, target: &I) -> (r: Result<i32, GraphError>) {
        self.get_edge_weight(source, target)
    }

    fn has_vertex(&self, vertex: &I) -> (r: bool) {
        self.is_id_in_graph(vertex)
    }

    fn out_degree(&self, vertex: &I) -> (r: Result<usize, GraphError>) {
        self.vertex_degree(vertex)
    }

}

impl<I: Eq + Hash + Clone, D: Clone> Clone for AdjListGraph<I, D> {
    /// A graph with the same vertices, data and arcs.
    fn clone(&self) -> (r: Self)
        ensures
            id_model::<I>() && clone_model::<D>() ==> r.adjacency() == self.adjacency() && r.data()
                == self.data(),
    {
        AdjListGraph { vertices: self.vertices.clone() }
    }
}

} // verus!

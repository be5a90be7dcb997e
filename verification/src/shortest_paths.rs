//! Dijkstra's algorithm and what is built on it: the shortest path between
//! two vertices, the shortest paths from one vertex to all others, and the
//! diameter of a graph.

use vstd::prelude::*;
use std::collections::HashMap;
use std::hash::Hash;
use crate::dijkstra::{
    backtrack_vertex_predecessor, create_dijkstra_metadata, get_min_distance, is_first_min,
    is_first_occurrence, mark_visited, relax_arc, relax_through, remove_from_list,
    MetadataDijkstra,
};
use crate::dijkstra_reach::{
    lemma_reach_result, lemma_reach_round, lemma_reach_starts, reach_inv,
};
use crate::dijkstra_run::{lemma_result, lemma_round, lemma_run_starts, run_inv};
use crate::error::GraphError;
use crate::ids::{clone_ids, clone_value, id_model};
use crate::model::Adjacency;
use crate::path::{GraphPath, PathModel};
use crate::topology::Topology;
use crate::walks::{
    connected, is_diameter, is_disconnected, is_lower_bound, is_path, is_some_path, is_split,
    is_tame, is_tame_throughout, is_unreachable, is_within,
};

verus! {

/// `paths` holds, for every vertex of the graph, a walk from `s` to it with
/// its weight, which is below the "infinite" sentinel; for `s` itself, the
/// walk that stays there.
pub open spec fn paths_from<N>(adj: Adjacency<N>, s: N, paths: Map<N, GraphPath<N>>) -> bool {
    &&& paths.dom() == adj.nodes()
    &&& forall|v: N|
        adj.has_node(v) ==> is_path(adj, s, v, (#[trigger] paths[v])@) && paths[v]@.distance
            < i32::MAX
    &&& adj.has_node(s) ==> paths[s]@ == (PathModel { distance: 0, path: seq![s] })
}

/// Each walk of `paths` is a shortest one from `s`.
pub open spec fn shortest_from<N>(adj: Adjacency<N>, s: N, paths: Map<N, GraphPath<N>>) -> bool {
    forall|v: N|
        adj.has_node(v) ==> is_lower_bound(adj, s, v, (#[trigger] paths[v])@.distance as int)
}

/// Some vertex cannot be reached from `s` below the distance `i32::MAX`.
pub open spec fn misses_some<N>(adj: Adjacency<N>, s: N) -> bool {
    exists|v: N| adj.has_node(v) && #[trigger] is_unreachable(adj, s, v)
}

/// No walk leads from `s` to some vertex of the graph.
pub open spec fn is_cut_off<N>(adj: Adjacency<N>, s: N) -> bool {
    exists|v: N| adj.has_node(v) && !#[trigger] connected(adj, s, v)
}

/// Relaxes every outgoing arc of `min_id`, in insertion order: where the
/// walk through `min_id` is shorter than what is recorded for an
/// unvisited neighbour, the neighbour's distance and predecessor are
/// updated. Arcs to vertices without a record are passed over. Fails,
/// changing nothing, when `min_id` has arcs but no record.
pub fn perform_edge_relaxation<N: Eq + Hash + Clone, G: Topology<N>>(
    graph: &G,
    metadata: &mut HashMap<N, MetadataDijkstra<N>>,
    min_id: &N,
) -> (r: Result<(), GraphError>)
    requires
        id_model::<N>(),
        graph.wf(),
    ensures
        r == if graph.adjacency().degree(*min_id) > 0 && !old(metadata)@.contains_key(*min_id) {
            Err::<(), GraphError>(GraphError::MetadataInconsistency)
        } else {
            Ok::<(), GraphError>(())
        },
        final(metadata)@ == if r is Ok {
            relax_through(
                old(metadata)@,
                graph.adjacency(),
                *min_id,
                graph.adjacency().degree(*min_id),
            )
        } else {
            old(metadata)@
        },
{
    let neighbours = graph.neighbour_ids(min_id);
    let mut i: usize = 0;
    while i < neighbours.len()
        invariant
            id_model::<N>(),
            graph.wf(),
            i <= neighbours.len(),
            neighbours@ == graph.adjacency().neighbours(*min_id),
            neighbours@.len() == graph.adjacency().degree(*min_id),
            i > 0 ==> old(metadata)@.contains_key(*min_id),
            metadata@.dom() == old(metadata)@.dom(),
            metadata@ == relax_through(old(metadata)@, graph.adjacency(), *min_id, i as nat),
        decreases neighbours.len() - i,
    {
        if !metadata.contains_key(min_id) {
            return Err(GraphError::MetadataInconsistency);
        }
        match graph.weight_between(min_id, &neighbours[i]) {
            Ok(weight) => {
                let ghost before = metadata@;
                relax_arc(metadata, min_id, &neighbours[i], weight);
                assert(metadata@.dom() =~= before.dom());
            },
            Err(_) => {
                proof {
                    let arcs = graph.adjacency().out_arcs(*min_id);
                    assert(arcs[i as int].0 == neighbours@[i as int]);
                }
                assert(false);
            },
        }
        i += 1;
    }
    Ok(())
}

/// Dijkstra's algorithm from `source`, ended as soon as the distance of
/// `destination` is final.
///
/// Returns a walk from `source` to `destination` that passes no vertex
/// twice, with its weight. When no weight in the graph is negative, no
/// walk between the two weighs less.
///
/// Fails with `InvalidVertex` when one of the two is not in the graph,
/// and with `Unreachable` when the algorithm finds no walk. Where the
/// weights are tame (no sum along a walk from `source` leaves the range
/// of the distances), that is exactly when no walk leads from `source`
/// to `destination`; when no weight is negative, exactly when none does
/// below the distance `i32::MAX`.
pub fn dijkstras_shortest_path<N: Eq + Hash + Clone, G: Topology<N>>(
    graph: &G,
    source: &N,
    destination: &N,
) -> (r: Result<GraphPath<N>, GraphError>)
    requires
        id_model::<N>(),
        graph.wf(),
    ensures
        r == Err::<GraphPath<N>, GraphError>(GraphError::InvalidVertex)
            <==> !graph.adjacency().has_node(*source) || !graph.adjacency().has_node(
            *destination,
        ),
        r matches Err(e) ==> e == GraphError::InvalidVertex || e == GraphError::Unreachable,
        r matches Ok(p) ==> is_path(graph.adjacency(), *source, *destination, p@) && p@.distance
            < i32::MAX,
        graph.adjacency().has_node(*source) && *source == *destination ==> (r matches Ok(p) && p@
            == (PathModel { distance: 0, path: seq![*source] })),
        graph.adjacency().nonnegative() ==> (r matches Ok(p) ==> is_lower_bound(
            graph.adjacency(),
            *source,
            *destination,
            p@.distance as int,
        )),
        graph.adjacency().nonnegative() ==> (r == Err::<GraphPath<N>, GraphError>(
            GraphError::Unreachable,
        ) <==> graph.adjacency().has_node(*source) && graph.adjacency().has_node(*destination)
            && is_unreachable(graph.adjacency(), *source, *destination)),
        is_tame(graph.adjacency(), *source) ==> (r == Err::<GraphPath<N>, GraphError>(
            GraphError::Unreachable,
        ) <==> graph.adjacency().has_node(*source) && graph.adjacency().has_node(*destination)
            && !connected(graph.adjacency(), *source, *destination)),
{
    if !graph.has_vertex(source) || !graph.has_vertex(destination) {
        return Err(GraphError::InvalidVertex);
    }
    let mut nodes: Vec<N> = graph.vertex_ids();
    let ghost adj = graph.adjacency();
    let mut metadata = match create_dijkstra_metadata(&nodes, source) {
        Ok(metadata) => metadata,
        Err(e) => {
            assert(nodes@.to_set().contains(*source));
            return Err(e);
        },
    };
    let ghost mut order: Seq<N> = Seq::empty();
    proof {
        lemma_run_starts(adj, *source, nodes@);
        lemma_reach_starts(adj, *source, metadata@);
    }
    while nodes.len() > 0
        invariant
            id_model::<N>(),
            graph.wf(),
            adj == graph.adjacency(),
            adj.has_node(*destination),
            run_inv(adj, *source, metadata@, nodes@, order),
            reach_inv(adj, *source, metadata@),
            nodes@.contains(*destination) || metadata@[*destination].visited,
        ensures
            run_inv(adj, *source, metadata@, nodes@, order),
            reach_inv(adj, *source, metadata@),
            metadata@.contains_key(*destination),
            metadata@[*destination].visited,
        decreases nodes.len(),
    {
        match metadata.get(destination) {
            Some(record) => {
                if record.visited {
                    break ;
                }
            },
            None => {
                return Err(GraphError::MetadataInconsistency);
            },
        }
        let ghost m = metadata@;
        let ghost todo = nodes@;
        proof {
            assert forall|j: int| 0 <= j < todo.len() implies m.contains_key(
                #[trigger] todo[j],
            ) by {
                assert(todo.contains(todo[j]));
            }
        }
        let min_id = match get_min_distance(&nodes, &metadata) {
            Ok(min_id) => min_id,
            Err(e) => {
                return Err(e);
            },
        };
        let ghost i = choose|i: int| is_first_min(todo, m, i) && todo[i] == min_id;
        proof {
            assert(todo.contains(min_id));
        }
        match mark_visited(&mut metadata, &min_id) {
            Ok(()) => {},
            Err(e) => {
                return Err(e);
            },
        }
        remove_from_list(&mut nodes, &min_id);
        proof {
            let k = choose|k: int|
                is_first_occurrence(todo, min_id, k) && nodes@ == todo.remove(k);
            assert(k == i);
        }
        match perform_edge_relaxation(graph, &mut metadata, &min_id) {
            Ok(()) => {},
            Err(e) => {
                return Err(e);
            },
        }
        proof {
            lemma_round(adj, *source, m, todo, order, i);
            lemma_reach_round(adj, *source, m, todo, order, i);
            order = order.push(min_id);
        }
    }
    proof {
        if nodes@.len() == 0 {
            assert(!nodes@.contains(*destination));
        }
        lemma_result(adj, *source, metadata@, nodes@, order, *destination);
        if is_tame(adj, *source) && metadata@[*destination].distance == i32::MAX {
            lemma_reach_result(adj, *source, metadata@, nodes@, order, *destination);
        }
    }
    backtrack_vertex_predecessor(&metadata, source, destination)
}

/// Dijkstra's algorithm from `source`, run until every distance is
/// final.
///
/// Returns, for every vertex of the graph, a walk from `source` to it
/// that passes no vertex twice, with its weight; when no weight in the
/// graph is negative, each is a shortest one.
///
/// Fails with `InvalidVertex` when `source` is not in the graph, and
/// with `Unreachable` when the algorithm finds no walk to some vertex.
/// Where the weights are tame, that is exactly when no walk leads from
/// `source` to some vertex; when no weight is negative, exactly when
/// some vertex cannot be reached below the distance `i32::MAX`.
pub fn dijkstras_shortest_paths<N: Eq + Hash + Clone, G: Topology<N>>(
    graph: &G,
    source: &N,
) -> (r: Result<HashMap<N, GraphPath<N>>, GraphError>)
    requires
        id_model::<N>(),
        graph.wf(),
    ensures
        (r matches Err(e) && e == GraphError::InvalidVertex) <==> !graph.adjacency().has_node(
            *source,
        ),
        r matches Err(e) ==> e == GraphError::InvalidVertex || e == GraphError::Unreachable,
        r matches Ok(paths) ==> paths_from(graph.adjacency(), *source, paths@),
        graph.adjacency().nonnegative() ==> (r matches Ok(paths) ==> shortest_from(
            graph.adjacency(),
            *source,
            paths@,
        )),
        graph.adjacency().nonnegative() ==> ((r matches Err(e) && e == GraphError::Unreachable)
            <==> graph.adjacency().has_node(*source) && misses_some(
            graph.adjacency(),
            *source,
        )),
        is_tame(graph.adjacency(), *source) ==> ((r matches Err(e) && e == GraphError::Unreachable)
            <==> graph.adjacency().has_node(*source) && is_cut_off(graph.adjacency(), *source)),
{
    if !graph.has_vertex(source) {
        return Err(GraphError::InvalidVertex);
    }
    let mut nodes: Vec<N> = graph.vertex_ids();
    let nodes_copy: Vec<N> = clone_ids(&nodes);
    let ghost adj = graph.adjacency();
    let mut metadata = match create_dijkstra_metadata(&nodes, source) {
        Ok(metadata) => metadata,
        Err(e) => {
            assert(nodes@.to_set().contains(*source));
            return Err(e);
        },
    };
    let ghost mut order: Seq<N> = Seq::empty();
    proof {
        lemma_run_starts(adj, *source, nodes@);
        lemma_reach_starts(adj, *source, metadata@);
    }
    while nodes.len() > 0
        invariant
            id_model::<N>(),
            graph.wf(),
            adj == graph.adjacency(),
            run_inv(adj, *source, metadata@, nodes@, order),
            reach_inv(adj, *source, metadata@),
        decreases nodes.len(),
    {
        let ghost m = metadata@;
        let ghost todo = nodes@;
        proof {
            assert forall|j: int| 0 <= j < todo.len() implies m.contains_key(
                #[trigger] todo[j],
            ) by {
                assert(todo.contains(todo[j]));
            }
        }
        let min_id = match get_min_distance(&nodes, &metadata) {
            Ok(min_id) => min_id,
            Err(e) => {
                return Err(e);
            },
        };
        let ghost i = choose|i: int| is_first_min(todo, m, i) && todo[i] == min_id;
        proof {
            assert(todo.contains(min_id));
        }
        match mark_visited(&mut metadata, &min_id) {
            Ok(()) => {},
            Err(e) => {
                return Err(e);
            },
        }
        remove_from_list(&mut nodes, &min_id);
        proof {
            let k = choose|k: int|
                is_first_occurrence(todo, min_id, k) && nodes@ == todo.remove(k);
            assert(k == i);
        }
        match perform_edge_relaxation(graph, &mut metadata, &min_id) {
            Ok(()) => {},
            Err(e) => {
                return Err(e);
            },
        }
        proof {
            lemma_round(adj, *source, m, todo, order, i);
            lemma_reach_round(adj, *source, m, todo, order, i);
            order = order.push(min_id);
        }
    }
    let mut result: HashMap<N, GraphPath<N>> = HashMap::new();
    let mut i: usize = 0;
    while i < nodes_copy.len()
        invariant
            id_model::<N>(),
            adj == graph.adjacency(),
            adj.has_node(*source),
            run_inv(adj, *source, metadata@, nodes@, order),
            reach_inv(adj, *source, metadata@),
            nodes@.len() == 0,
            nodes_copy@.to_set() == adj.nodes(),
            i <= nodes_copy.len(),
            forall|v: N|
                result@.contains_key(v) <==> exists|j: int|
                    0 <= j < i && #[trigger] nodes_copy@[j] == v,
            forall|v: N|
                result@.contains_key(v) ==> is_path(adj, *source, v, (#[trigger] result@[v])@)
                    && result@[v]@.distance < i32::MAX,
            forall|v: N|
                result@.contains_key(v) && adj.nonnegative() ==> is_lower_bound(
                    adj,
                    *source,
                    v,
                    (#[trigger] result@[v])@.distance as int,
                ),
            result@.contains_key(*source) ==> result@[*source]@ == (PathModel {
                distance: 0,
                path: seq![*source],
            }),
        decreases nodes_copy.len() - i,
    {
        let ghost before = result@;
        let ghost v = nodes_copy@[i as int];
        proof {
            assert(nodes_copy@.to_set().contains(v));
            assert(!nodes@.contains(v));
            lemma_result(adj, *source, metadata@, nodes@, order, v);
        }
        match backtrack_vertex_predecessor(&metadata, source, &nodes_copy[i]) {
            Ok(path) => {
                result.insert(clone_value(&nodes_copy[i]), path);
            },
            Err(e) => {
                proof {
                    if adj.nonnegative() {
                        assert(is_unreachable(adj, *source, v));
                    }
                    if is_tame(adj, *source) {
                        lemma_reach_result(adj, *source, metadata@, nodes@, order, v);
                        assert(!connected(adj, *source, v));
                    }
                }
                return Err(e);
            },
        }
        proof {
            assert forall|u: N| result@.contains_key(u) implies exists|j: int|
                0 <= j < i + 1 && #[trigger] nodes_copy@[j] == u by {
                if u != v {
                    assert(before.contains_key(u));
                    let j = choose|j: int| 0 <= j < i && #[trigger] nodes_copy@[j] == u;
                    assert(nodes_copy@[j] == u);
                }
            }
        }
        i += 1;
    }
    proof {
        assert(result@.dom() =~= adj.nodes()) by {
            assert forall|u: N| result@.contains_key(u) <==> adj.nodes().contains(u) by {
                assert(nodes_copy@.to_set().contains(u) <==> nodes_copy@.contains(u));
                if nodes_copy@.contains(u) {
                    let j = choose|j: int| 0 <= j < nodes_copy@.len() && nodes_copy@[j] == u;
                    assert(nodes_copy@[j] == u);
                }
            }
        }
        if adj.nonnegative() && misses_some(adj, *source) {
            let u = choose|u: N| adj.has_node(u) && #[trigger] is_unreachable(adj, *source, u);
            assert(is_path(adj, *source, u, result@[u]@));
            assert(adj.is_walk_between(result@[u]@.path, *source, u));
        }
        if is_cut_off(adj, *source) {
            let u = choose|u: N| adj.has_node(u) && !#[trigger] connected(adj, *source, u);
            assert(is_path(adj, *source, u, result@[u]@));
            assert(adj.is_walk_between(result@[u]@.path, *source, u));
        }
    }
    Ok(result)
}

/// The diameter of the graph: the longest among the shortest walks
/// between any two vertices, with ties going to the walk met first.
///
/// For a graph without vertices the empty path is returned. When no
/// weight is negative, what is returned otherwise is a shortest walk
/// between its ends that no shortest walk exceeds.
///
/// Fails with `Unreachable` when the algorithm finds no walk between
/// some two vertices. Where the weights are tame, that is exactly when
/// no walk leads from some vertex to some other; when no weight is
/// negative, exactly when some vertex cannot be reached from some other
/// below the distance `i32::MAX`.
pub fn diameter_path<N: Eq + Hash + Clone, G: Topology<N>>(graph: &G) -> (r: Result<
    GraphPath<N>,
    GraphError,
>)
    requires
        id_model::<N>(),
        graph.wf(),
    ensures
        r matches Err(e) ==> e == GraphError::Unreachable,
        r matches Ok(p) ==> if graph.adjacency().nodes().len() == 0 {
            p@ == (PathModel { distance: 0, path: Seq::<N>::empty() })
        } else {
            is_some_path(graph.adjacency(), p@)
        },
        graph.adjacency().nonnegative() && graph.adjacency().nodes().len() > 0 ==> (r matches Ok(
            p,
        ) ==> is_diameter(graph.adjacency(), p@)),
        graph.adjacency().nonnegative() ==> (r is Err <==> is_disconnected(graph.adjacency())),
        is_tame_throughout(graph.adjacency()) ==> (r is Err <==> is_split(graph.adjacency())),
{
    let nodes: Vec<N> = graph.vertex_ids();
    let ghost adj = graph.adjacency();
    let mut longest_path: GraphPath<N> = GraphPath::new();
    let mut longest_distance: i32 = i32::MIN;
    proof {
        nodes@.unique_seq_to_set();
    }
    let mut i: usize = 0;
    while i < nodes.len()
        invariant
            id_model::<N>(),
            graph.wf(),
            adj == graph.adjacency(),
            nodes@.to_set() == adj.nodes(),
            i <= nodes.len(),
            i == 0 ==> longest_distance == i32::MIN && longest_path@ == (PathModel {
                distance: 0,
                path: Seq::<N>::empty(),
            }),
            i > 0 ==> is_some_path(adj, longest_path@) && longest_distance
                == longest_path@.distance,
            i > 0 && adj.nonnegative() ==> is_lower_bound(
                adj,
                longest_path@.path[0],
                longest_path@.path[longest_path@.path.len() - 1],
                longest_distance as int,
            ),
            adj.nonnegative() ==> forall|a: int, b: N|
                0 <= a < i && adj.has_node(b) ==> #[trigger] is_within(
                    adj,
                    nodes@[a],
                    b,
                    longest_distance as int,
                ),
            adj.nonnegative() ==> forall|a: int, b: N|
                0 <= a < i && adj.has_node(b) ==> !#[trigger] is_unreachable(
                    adj,
                    nodes@[a],
                    b,
                ),
            forall|a: int, b: N|
                0 <= a < i && adj.has_node(b) ==> #[trigger] connected(adj, nodes@[a], b),
        decreases nodes.len() - i,
    {
        let ghost from = nodes@[i as int];
        proof {
            assert(nodes@.to_set().contains(from));
        }
        let paths = match dijkstras_shortest_paths(graph, &nodes[i]) {
            Ok(paths) => paths,
            Err(e) => {
                proof {
                    if adj.nonnegative() {
                        let b = choose|b: N|
                            adj.has_node(b) && #[trigger] is_unreachable(adj, from, b);
                        assert(is_unreachable(adj, from, b));
                    }
                    if is_tame_throughout(adj) {
                        assert(is_tame(adj, from));
                        let b = choose|b: N| adj.has_node(b) && !#[trigger] connected(adj, from, b);
                        assert(!connected(adj, from, b));
                    }
                }
                return Err(e);
            },
        };
        let ghost start_distance = longest_distance;
        let mut j: usize = 0;
        while j < nodes.len()
            invariant
                id_model::<N>(),
                adj == graph.adjacency(),
                nodes@.to_set() == adj.nodes(),
                i < nodes.len(),
                from == nodes@[i as int],
                adj.has_node(from),
                j <= nodes.len(),
                paths_from(adj, from, paths@),
                adj.nonnegative() ==> shortest_from(adj, from, paths@),
                start_distance <= longest_distance,
                i == 0 && j == 0 ==> longest_distance == i32::MIN && longest_path@
                    == (PathModel { distance: 0, path: Seq::<N>::empty() }),
                i > 0 || j > 0 ==> is_some_path(adj, longest_path@) && longest_distance
                    == longest_path@.distance,
                (i > 0 || j > 0) && adj.nonnegative() ==> is_lower_bound(
                    adj,
                    longest_path@.path[0],
                    longest_path@.path[longest_path@.path.len() - 1],
                    longest_distance as int,
                ),
                forall|b: int|
                    0 <= b < j ==> (#[trigger] paths@[nodes@[b]])@.distance
                        <= longest_distance,
            decreases nodes.len() - j,
        {
            let ghost to = nodes@[j as int];
            proof {
                assert(nodes@.to_set().contains(to));
                assert(adj.has_node(to));
                assert(is_path(adj, from, to, paths@[to]@));
            }
            match paths.get(&nodes[j]) {
                Some(path) => {
                    if path.get_distance() > longest_distance {
                        longest_path = path.clone();
                        longest_distance = path.get_distance();
                        proof {
                            if adj.nonnegative() {
                                assert(is_lower_bound(
                                    adj,
                                    from,
                                    to,
                                    paths@[to]@.distance as int,
                                ));
                            }
                        }
                    }
                },
                None => {
                    assert(false);
                },
            }
            j += 1;
        }
        proof {
            assert forall|a: int, b: N| 0 <= a < i + 1 && adj.has_node(b) implies
                #[trigger] connected(
                adj,
                nodes@[a],
                b,
            ) by {
                if a == i {
                    assert(is_path(adj, from, b, paths@[b]@));
                    assert(adj.is_walk_between(paths@[b]@.path, from, b));
                }
            }
            if adj.nonnegative() {
                assert forall|a: int, b: N| 0 <= a < i + 1 && adj.has_node(b) implies
                    #[trigger] is_within(
                    adj,
                    nodes@[a],
                    b,
                    longest_distance as int,
                ) by {
                    if a < i {
                        assert(is_within(adj, nodes@[a], b, start_distance as int));
                        let q = choose|q: Seq<N>| #[trigger]
                            adj.is_walk_between(q, nodes@[a], b) && adj.walk_weight(q)
                                <= start_distance;
                        assert(adj.is_walk_between(q, nodes@[a], b));
                    } else {
                        assert(nodes@.to_set().contains(b));
                        let k = choose|k: int| 0 <= k < nodes@.len() && nodes@[k] == b;
                        assert(paths@[nodes@[k]]@.distance <= longest_distance);
                        assert(is_path(adj, from, b, paths@[b]@));
                        assert(adj.is_walk_between(paths@[b]@.path, from, b));
                    }
                }
                assert forall|a: int, b: N| 0 <= a < i + 1 && adj.has_node(b) implies
                    !#[trigger] is_unreachable(
                    adj,
                    nodes@[a],
                    b,
                ) by {
                    if a == i {
                        assert(is_path(adj, from, b, paths@[b]@));
                        assert(adj.is_walk_between(paths@[b]@.path, from, b));
                    }
                }
            }
        }
        i += 1;
    }
    proof {
        if is_split(adj) {
            let (a, b) = choose|a: N, b: N|
                adj.has_node(a) && adj.has_node(b) && !#[trigger] connected(adj, a, b);
            assert(nodes@.to_set().contains(a));
            let k = choose|k: int| 0 <= k < nodes@.len() && nodes@[k] == a;
            assert(connected(adj, nodes@[k], b));
        }
        if adj.nonnegative() {
            if is_disconnected(adj) {
                let (a, b) = choose|a: N, b: N|
                    adj.has_node(a) && adj.has_node(b) && #[trigger] is_unreachable(adj, a, b);
                assert(nodes@.to_set().contains(a));
                let k = choose|k: int| 0 <= k < nodes@.len() && nodes@[k] == a;
                assert(!is_unreachable(adj, nodes@[k], b));
            }
            if nodes.len() > 0 {
                assert forall|a: N, b: N| adj.has_node(a) && adj.has_node(b) implies
                    #[trigger] is_within(
                    adj,
                    a,
                    b,
                    longest_path@.distance as int,
                ) by {
                    assert(nodes@.to_set().contains(a));
                    let k = choose|k: int| 0 <= k < nodes@.len() && nodes@[k] == a;
                    assert(is_within(adj, nodes@[k], b, longest_distance as int));
                }
            }
        }
    }
    Ok(longest_path)
}

} // verus!

//! The per-run bookkeeping of Dijkstra's algorithm, and the steps of the
//! algorithm that work on it.

use vstd::prelude::*;
use std::collections::HashMap;
use std::hash::Hash;
use crate::error::GraphError;
use crate::ids::{clone_model, clone_value, id_model, same_id};
use crate::model::Adjacency;
use crate::path::{GraphPath, PathModel};

verus! {

/// What is known of one vertex during a run of Dijkstra's algorithm.
#[derive(Debug)]
pub struct MetadataDijkstra<N> {
    /// The vertex before this one on the best walk found so far.
    pub predecessor: Option<N>,
    /// Whether the distance of the vertex is final.
    pub visited: bool,
    /// The weight of the best walk found so far; `i32::MAX` stands for
    /// "none found".
    pub distance: i32,
}

impl<N: Clone> Clone for MetadataDijkstra<N> {
    fn clone(&self) -> (r: Self)
        ensures
            clone_model::<N>() ==> r == *self,
    {
        let predecessor = match &self.predecessor {
            Some(p) => {
                let c = p.clone();
                assert(cloned(*p, c));
                Some(c)
            },
            None => None,
        };
        MetadataDijkstra { predecessor, visited: self.visited, distance: self.distance }
    }
}

/// The bookkeeping of a run, as a mathematical map.
pub type Records<N> = Map<N, MetadataDijkstra<N>>;

/// The record of a vertex before the run has looked at it.
pub open spec fn initial_record<N>(v: N, start: N) -> MetadataDijkstra<N> {
    MetadataDijkstra {
        predecessor: None,
        visited: false,
        distance: if v == start {
            0
        } else {
            i32::MAX
        },
    }
}

/// The bookkeeping at the start of a run from `start`: one record for each
/// vertex, unvisited and without predecessor, at distance 0 for `start` and
/// at infinite distance for the others.
pub open spec fn initial_records<N>(nodes: Set<N>, start: N) -> Records<N> {
    Map::new(|v: N| nodes.contains(v), |v: N| initial_record(v, start))
}

/// Creates the bookkeeping for a run from `start_vertex` over `vertices`.
/// Fails when `start_vertex` is not among them.
pub fn create_dijkstra_metadata<N: Eq + Hash + Clone>(
    vertices: &Vec<N>,
    start_vertex: &N,
) -> (r: Result<HashMap<N, MetadataDijkstra<N>>, GraphError>)
    requires
        id_model::<N>(),
    ensures
        match r {
            Ok(metadata) => vertices@.contains(*start_vertex) && metadata@ == initial_records(
                vertices@.to_set(),
                *start_vertex,
            ),
            Err(e) => !vertices@.contains(*start_vertex) && e == GraphError::MetadataInconsistency,
        },
{
    let mut metadata: HashMap<N, MetadataDijkstra<N>> = HashMap::new();
    let mut i: usize = 0;
    while i < vertices.len()
        invariant
            id_model::<N>(),
            i <= vertices.len(),
            forall|v: N|
                metadata@.contains_key(v) <==> exists|j: int|
                    0 <= j < i && #[trigger] vertices@[j] == v,
            forall|v: N|
                metadata@.contains_key(v) ==> #[trigger] metadata@[v] == initial_record(
                    v,
                    *start_vertex,
                ),
        decreases vertices.len() - i,
    {
        let is_start = same_id(&vertices[i], start_vertex);
        let ghost before = metadata@;
        metadata.insert(
            clone_value(&vertices[i]),
            MetadataDijkstra {
                predecessor: None,
                visited: false,
                distance: if is_start {
                    0
                } else {
                    i32::MAX
                },
            },
        );
        proof {
            assert forall|v: N| metadata@.contains_key(v) implies exists|j: int|
                0 <= j < i + 1 && #[trigger] vertices@[j] == v by {
                if v == vertices@[i as int] {
                } else {
                    assert(before.contains_key(v));
                    let j = choose|j: int| 0 <= j < i && #[trigger] vertices@[j] == v;
                    assert(vertices@[j] == v);
                }
            }
        }
        i += 1;
    }
    proof {
        assert forall|v: N| metadata@.contains_key(v) <==> vertices@.to_set().contains(v) by {
            if vertices@.contains(v) {
                let j = choose|j: int| 0 <= j < vertices@.len() && vertices@[j] == v;
                assert(vertices@[j] == v);
            }
        }
        assert(metadata@ =~= initial_records(vertices@.to_set(), *start_vertex));
    }
    if metadata.contains_key(start_vertex) {
        Ok(metadata)
    } else {
        Err(GraphError::MetadataInconsistency)
    }
}

/// Position `i` of `vertices` holds the first vertex of least recorded
/// distance.
pub open spec fn is_first_min<N>(vertices: Seq<N>, records: Records<N>, i: int) -> bool {
    &&& 0 <= i < vertices.len()
    &&& forall|j: int|
        0 <= j < vertices.len() ==> records[vertices[i]].distance <= (
        #[trigger] records[vertices[j]]).distance
    &&& forall|j: int|
        0 <= j < i ==> records[vertices[i]].distance < (#[trigger] records[vertices[j]]).distance
}

/// Every vertex of the list has a record.
pub open spec fn all_recorded<N>(vertices: Seq<N>, records: Records<N>) -> bool {
    forall|j: int| 0 <= j < vertices.len() ==> records.contains_key(#[trigger] vertices[j])
}

/// Finds the vertex of least recorded distance; among several, the first in
/// the list. Fails when some vertex of the list has no record.
pub fn get_min_distance<N: Eq + Hash + Clone>(
    vertices: &Vec<N>,
    metadata: &HashMap<N, MetadataDijkstra<N>>,
) -> (r: Result<N, GraphError>)
    requires
        id_model::<N>(),
        vertices.len() > 0,
    ensures
        match r {
            Ok(v) => all_recorded(vertices@, metadata@) && exists|i: int|
                is_first_min(vertices@, metadata@, i) && vertices@[i] == v,
            Err(e) => !all_recorded(vertices@, metadata@) && e
                == GraphError::MetadataInconsistency,
        },
{
    let mut min: i32 = i32::MAX;
    let mut min_index: usize = 0;
    let mut i: usize = 0;
    while i < vertices.len()
        invariant
            id_model::<N>(),
            i <= vertices.len(),
            vertices.len() > 0,
            all_recorded(vertices@.take(i as int), metadata@),
            i == 0 ==> min == i32::MAX && min_index == 0,
            i > 0 ==> min_index < i && min == metadata@[vertices@[min_index as int]].distance
                && is_first_min(vertices@.take(i as int), metadata@, min_index as int),
        decreases vertices.len() - i,
    {
        match metadata.get(&vertices[i]) {
            Some(record) => {
                if i == 0 || record.distance < min {
                    min = record.distance;
                    min_index = i;
                }
            },
            None => {
                return Err(GraphError::MetadataInconsistency);
            },
        }
        proof {
            let shorter = vertices@.take(i as int);
            let longer = vertices@.take(i + 1);
            assert forall|j: int| 0 <= j < longer.len() implies metadata@.contains_key(
                #[trigger] longer[j],
            ) by {
                if j < i {
                    assert(shorter[j] == longer[j]);
                }
            }
            assert(is_first_min(longer, metadata@, min_index as int)) by {
                assert forall|j: int| 0 <= j < longer.len() implies
                    metadata@[longer[min_index as int]].distance
                    <= (#[trigger] metadata@[longer[j]]).distance by {
                    if j < i {
                        assert(shorter[j] == longer[j]);
                    }
                }
                assert forall|j: int| 0 <= j < min_index implies
                    metadata@[longer[min_index as int]].distance
                    < (#[trigger] metadata@[longer[j]]).distance by {
                    assert(shorter[j] == longer[j]);
                }
            }
        }
        i += 1;
    }
    assert(vertices@.take(vertices.len() as int) =~= vertices@);
    Ok(clone_value(&vertices[min_index]))
}

/// Position `i` of `vertices` holds the first occurrence of `id`.
pub open spec fn is_first_occurrence<N>(vertices: Seq<N>, id: N, i: int) -> bool {
    &&& 0 <= i < vertices.len()
    &&& vertices[i] == id
    &&& forall|j: int| 0 <= j < i ==> vertices[j] != id
}

/// Removes the first occurrence of `id` from the list; the list is left
/// unchanged when `id` does not occur.
pub fn remove_from_list<N: Eq + Hash + Clone>(vertices: &mut Vec<N>, id: &N)
    requires
        id_model::<N>(),
    ensures
        !old(vertices)@.contains(*id) ==> final(vertices)@ == old(vertices)@,
        old(vertices)@.contains(*id) ==> exists|i: int|
            is_first_occurrence(old(vertices)@, *id, i)
                && final(vertices)@ == old(vertices)@.remove(
                i,
            ),
{
    let mut i: usize = 0;
    while i < vertices.len()
        invariant
            id_model::<N>(),
            i <= vertices.len(),
            vertices@ == old(vertices)@,
            forall|j: int| 0 <= j < i ==> vertices@[j] != *id,
        decreases vertices.len() - i,
    {
        if same_id(&vertices[i], id) {
            assert(is_first_occurrence(old(vertices)@, *id, i as int));
            vertices.remove(i);
            return ;
        }
        i += 1;
    }
}

/// Marks a vertex as visited. Fails when the vertex has no record.
pub fn mark_visited<N: Eq + Hash + Clone>(
    metadata: &mut HashMap<N, MetadataDijkstra<N>>,
    id: &N,
) -> (r: Result<(), GraphError>)
    requires
        id_model::<N>(),
    ensures
        final(metadata)@ == visit(old(metadata)@, *id),
        r == if old(metadata)@.contains_key(*id) {
            Ok::<(), GraphError>(())
        } else {
            Err::<(), GraphError>(GraphError::MetadataInconsistency)
        },
{
    let record = match metadata.get(id) {
        Some(record) => clone_value(record),
        None => {
            return Err(GraphError::MetadataInconsistency);
        },
    };
    metadata.insert(
        clone_value(id),
        MetadataDijkstra {
            predecessor: record.predecessor,
            visited: true,
            distance: record.distance,
        },
    );
    Ok(())
}

/// The records after `v` is marked as visited.
pub open spec fn visit<N>(records: Records<N>, v: N) -> Records<N> {
    if records.contains_key(v) {
        records.insert(
            v,
            MetadataDijkstra {
                predecessor: records[v].predecessor,
                visited: true,
                distance: records[v].distance,
            },
        )
    } else {
        records
    }
}

/// The arc from `u` to `v` of weight `w` improves on what is recorded for
/// `v`: both have a record, `v` is not final, `u` has been reached, and the
/// walk through `u` is shorter (and its weight can be recorded).
pub open spec fn improves<N>(records: Records<N>, u: N, v: N, w: i32) -> bool {
    &&& records.contains_key(u)
    &&& records.contains_key(v)
    &&& !records[v].visited
    &&& records[u].distance < i32::MAX
    &&& i32::MIN <= records[u].distance + w < records[v].distance
}

/// The records after the arc from `u` to `v` of weight `w` is relaxed.
pub open spec fn relaxed<N>(records: Records<N>, u: N, v: N, w: i32) -> Records<N> {
    if improves(records, u, v, w) {
        records.insert(
            v,
            MetadataDijkstra {
                predecessor: Some(u),
                visited: false,
                distance: (records[u].distance + w) as i32,
            },
        )
    } else {
        records
    }
}

/// Relaxes one arc, from `min_id` to `id`, of weight `weight`.
pub fn relax_arc<N: Eq + Hash + Clone>(
    metadata: &mut HashMap<N, MetadataDijkstra<N>>,
    min_id: &N,
    id: &N,
    weight: i32,
)
    requires
        id_model::<N>(),
    ensures
        final(metadata)@ == relaxed(old(metadata)@, *min_id, *id, weight),
{
    let min_distance = match metadata.get(min_id) {
        Some(record) => record.distance,
        None => {
            return ;
        },
    };
    let (visited, distance) = match metadata.get(id) {
        Some(record) => (record.visited, record.distance),
        None => {
            return ;
        },
    };
    if !visited && min_distance < i32::MAX {
        let length: i64 = min_distance as i64 + weight as i64;
        if length >= i32::MIN as i64 && (distance as i64) > length {
            metadata.insert(
                clone_value(id),
                MetadataDijkstra {
                    predecessor: Some(clone_value(min_id)),
                    visited: false,
                    distance: length as i32,
                },
            );
        }
    }
}

/// The walk from `start` to `v` that the predecessor links describe, when
/// following them from `v` reaches `start` within `fuel` steps.
///
/// It is `Unreachable` when a vertex other than `start` without predecessor
/// is met, and `MetadataInconsistency` when a vertex without record is met or
/// the links do not reach `start` within `fuel` steps.
pub open spec fn chain<N>(records: Records<N>, start: N, v: N, fuel: nat) -> Result<
    Seq<N>,
    GraphError,
>
    decreases fuel,
{
    if v == start {
        Ok(seq![start])
    } else if !records.contains_key(v) || fuel == 0 {
        Err(GraphError::MetadataInconsistency)
    } else {
        match records[v].predecessor {
            None => Err(GraphError::Unreachable),
            Some(u) => match chain(records, start, u, (fuel - 1) as nat) {
                Ok(p) => Ok(p.push(v)),
                Err(e) => Err(e),
            },
        }
    }
}

/// What backtracking from `target` yields: the recorded distance of
/// `target` with the walk that the predecessor links describe, where a walk
/// has at most one vertex more than there are records.
pub open spec fn backtracked<N>(records: Records<N>, start: N, target: N) -> Result<
    PathModel<N>,
    GraphError,
> {
    if !records.contains_key(target) {
        Err(GraphError::MetadataInconsistency)
    } else {
        match chain(records, start, target, records.len()) {
            Ok(p) => Ok(PathModel { distance: records[target].distance, path: p }),
            Err(e) => Err(e),
        }
    }
}

/// Reconstructs the walk from `start_vertex` to `target_vertex` by following
/// predecessor links backwards from the target, and pairs it with the
/// recorded distance of the target.
pub fn backtrack_vertex_predecessor<N: Eq + Hash + Clone>(
    metadata: &HashMap<N, MetadataDijkstra<N>>,
    start_vertex: &N,
    target_vertex: &N,
) -> (r: Result<GraphPath<N>, GraphError>)
    requires
        id_model::<N>(),
    ensures
        match r {
            Ok(p) => backtracked(metadata@, *start_vertex, *target_vertex) == Ok::<
                PathModel<N>,
                GraphError,
            >(p@),
            Err(e) => backtracked(metadata@, *start_vertex, *target_vertex) == Err::<
                PathModel<N>,
                GraphError,
            >(e),
        },
{
    let mut result: GraphPath<N> = GraphPath::new();
    match metadata.get(target_vertex) {
        Some(record) => result.set_distance(record.distance),
        None => {
            return Err(GraphError::MetadataInconsistency);
        },
    }
    let limit: usize = metadata.len();
    let ghost whole = chain(metadata@, *start_vertex, *target_vertex, limit as nat);
    let mut path: Vec<N> = Vec::new();
    let mut last: N = clone_value(target_vertex);
    let mut steps: usize = 0;
    proof {
        match chain(metadata@, *start_vertex, last, limit as nat) {
            Ok(p) => {
                assert(p + path@ =~= p);
            },
            Err(_) => {},
        }
    }
    while !same_id(&last, start_vertex)
        invariant
            id_model::<N>(),
            steps <= limit,
            limit == metadata@.len(),
            whole == chain(metadata@, *start_vertex, *target_vertex, limit as nat),
            whole == match chain(metadata@, *start_vertex, last, (limit - steps) as nat) {
                Ok(p) => Ok::<Seq<N>, GraphError>(p + path@),
                Err(e) => Err::<Seq<N>, GraphError>(e),
            },
            result@ == (PathModel {
                distance: metadata@[*target_vertex].distance,
                path: Seq::<N>::empty(),
            }),
            metadata@.contains_key(*target_vertex),
        decreases limit - steps,
    {
        if steps == limit {
            return Err(GraphError::MetadataInconsistency);
        }
        let ghost before = path@;
        let ghost here = last;
        path.insert(0, clone_value(&last));
        match metadata.get(&last) {
            Some(record) => match &record.predecessor {
                Some(previous) => {
                    last = clone_value(previous);
                },
                None => {
                    return Err(GraphError::Unreachable);
                },
            },
            None => {
                return Err(GraphError::MetadataInconsistency);
            },
        }
        steps += 1;
        proof {
            match chain(metadata@, *start_vertex, last, (limit - steps) as nat) {
                Ok(p) => {
                    assert(p.push(here) + before =~= p + path@);
                },
                Err(_) => {},
            }
        }
    }
    proof {
        assert(seq![*start_vertex] + path@ =~= path@.insert(0, *start_vertex));
    }
    path.insert(0, clone_value(start_vertex));
    result.set_path(path);
    Ok(result)
}

/// The records after the first `k` outgoing arcs of `u` are relaxed, in
/// insertion order. Between two vertices the weight of the first arc counts.
pub open spec fn relax_through<N>(records: Records<N>, adj: Adjacency<N>, u: N, k: nat) -> Records<
    N,
>
    decreases k,
{
    if k == 0 {
        records
    } else {
        let v = adj.neighbours(u)[k - 1];
        relaxed(relax_through(records, adj, u, (k - 1) as nat), u, v, adj.arc_weight(u, v))
    }
}

} // verus!

//! Kruskal's algorithm: what it builds, and the bookkeeping of a run.

use vstd::prelude::*;
use std::collections::HashMap;
use std::collections::HashSet;
use std::hash::Hash;
use crate::buckets::{add_to_bucket, bucket_of, get_next_vertex};
use crate::forest::{forest_find, forest_make_set, forest_new, forest_union, subsets};
use crate::ids::{clone_value, id_model};
use crate::kruskal_run::{
    forest_inv, lemma_forest_accepts, lemma_forest_advances, lemma_forest_done,
    lemma_forest_rejects, lemma_forest_starts, lemma_tags_fresh, lemma_tags_merge,
    lemma_tags_single, retagged, tags_in,
};
use crate::minimality::{is_minimum_spanning_forest, lemma_greedy_is_minimum};
use crate::model::Adjacency;
use crate::spanning::{has_components, is_one_piece, lemma_greedy_count, lemma_greedy_tree};
use crate::walks::connected;
use crate::weights::{distinct_weights, is_increasing, occurs};

verus! {

/// The graph with the vertices `nodes` and no arcs.
pub open spec fn bare<N>(nodes: Set<N>) -> Adjacency<N> {
    Adjacency { arcs: Map::new(|v: N| nodes.contains(v), |v: N| Seq::<(N, i32)>::empty()) }
}

/// The graph after the undirected edges `edges` are inserted, in order.
pub open spec fn with_edges<N>(adj: Adjacency<N>, edges: Seq<(N, N, i32)>) -> Adjacency<N>
    decreases edges.len(),
{
    if edges.len() == 0 {
        adj
    } else {
        with_edges(adj, edges.drop_last()).with_edge(
            edges.last().0,
            edges.last().1,
            edges.last().2,
        )
    }
}

/// `picks` selects edges of a list of `len` edges: each pick is a position of
/// the list, and no position is picked twice.
pub open spec fn is_selection(picks: Seq<usize>, len: nat) -> bool {
    &&& picks.no_duplicates()
    &&& forall|j: int| 0 <= j < picks.len() ==> (#[trigger] picks[j]) < len
}

/// The bookkeeping of the edges is consistent: `examined` holds the
/// positions of the edges taken out of the buckets so far, the accepted ones
/// among them; every other edge sits in the bucket of its weight.
pub open spec fn pick_inv<N>(
    edges: Seq<(N, N, i32)>,
    buckets: Map<i32, HashSet<usize>>,
    examined: Seq<usize>,
    accepted: Seq<usize>,
) -> bool {
    &&& is_selection(examined, edges.len())
    &&& is_selection(accepted, edges.len())
    &&& forall|j: int| 0 <= j < accepted.len() ==> examined.contains(#[trigger] accepted[j])
    &&& forall|k: i32, i: usize| #[trigger]
        bucket_of(buckets, k).contains(i) <==> i < edges.len() && !examined.contains(i)
            && edges[i as int].2 == k
}

/// No more positions can be selected than the list has.
pub proof fn lemma_selection_len(picks: Seq<usize>, len: nat)
    requires
        is_selection(picks, len),
    ensures
        picks.len() <= len,
{
    let ints = picks.map_values(|i: usize| i as int);
    assert(ints.no_duplicates()) by {
        assert forall|a: int, b: int| 0 <= a < ints.len() && 0 <= b < ints.len() && a != b implies
            ints[a]
            != ints[b] by {
            assert(picks[a] != picks[b]);
        }
    }
    ints.unique_seq_to_set();
    vstd::set_lib::lemma_int_range(0, len as int);
    assert(ints.to_set().subset_of(vstd::set_lib::set_int_range(0, len as int))) by {
        assert forall|x: int| ints.to_set().contains(x) implies vstd::set_lib::set_int_range(
            0,
            len as int,
        ).contains(x) by {
            assert(ints.contains(x));
            let a = choose|a: int| 0 <= a < ints.len() && ints[a] == x;
            assert(picks[a] < len);
        }
    }
    vstd::set_lib::lemma_len_subset(ints.to_set(), vstd::set_lib::set_int_range(0, len as int));
}

/// Appending a position that has not been picked keeps a selection.
pub proof fn lemma_selection_push(picks: Seq<usize>, len: nat, i: usize)
    requires
        is_selection(picks, len),
        !picks.contains(i),
        i < len,
    ensures
        is_selection(picks.push(i), len),
        forall|x: usize| #[trigger] picks.push(i).contains(x) <==> picks.contains(x) || x == i,
{
    let longer = picks.push(i);
    assert forall|a: int, b: int|
        0 <= a < longer.len() && 0 <= b < longer.len() && a != b implies longer[a] != longer[b] by {
        if a < picks.len() {
            assert(picks.contains(picks[a]));
        }
        if b < picks.len() {
            assert(picks.contains(picks[b]));
        }
    }
    assert forall|x: usize| #[trigger] longer.contains(x) <==> picks.contains(x) || x == i by {
        if picks.contains(x) {
            let a = choose|a: int| 0 <= a < picks.len() && picks[a] == x;
            assert(longer[a] == x);
        }
        if x == i {
            assert(longer[picks.len() as int] == i);
        }
        if longer.contains(x) && x != i {
            let a = choose|a: int| 0 <= a < longer.len() && longer[a] == x;
            assert(picks[a] == x);
        }
    }
}

/// Both ends of the edge are among `nodes`.
pub open spec fn has_ends<N>(nodes: Set<N>, edge: (N, N, i32)) -> bool {
    nodes.contains(edge.0) && nodes.contains(edge.1)
}

/// The forest on `nodes` after the first `k` edges of `chosen` are inserted.
pub open spec fn forest_at<N>(nodes: Set<N>, chosen: Seq<(N, N, i32)>, k: int) -> Adjacency<N> {
    with_edges(bare(nodes), chosen.take(k))
}

/// The edges of `edges` at the positions `picks`.
pub open spec fn taken<N>(edges: Seq<(N, N, i32)>, picks: Seq<usize>) -> Seq<(N, N, i32)> {
    Seq::new(picks.len(), |j: int| edges[picks[j] as int])
}

/// The edge at position `i` of `edges` closes a cycle with edges picked
/// earlier that are no heavier: the first `k` picks are no heavier than it,
/// and connect its ends.
pub open spec fn closes_cycle<N>(
    nodes: Set<N>,
    edges: Seq<(N, N, i32)>,
    picks: Seq<usize>,
    i: int,
    k: int,
) -> bool {
    &&& 0 <= k <= picks.len()
    &&& forall|j: int| 0 <= j < k ==> edges[(#[trigger] picks[j]) as int].2 <= edges[i].2
    &&& connected(forest_at(nodes, taken(edges, picks), k), edges[i].0, edges[i].1)
}

/// The picks select edges of `edges`, each between two of the vertices
/// `nodes`.
pub open spec fn is_choice<N>(nodes: Set<N>, edges: Seq<(N, N, i32)>, picks: Seq<usize>) -> bool {
    &&& is_selection(picks, edges.len())
    &&& forall|j: int|
        0 <= j < picks.len() ==> has_ends(nodes, edges[(#[trigger] picks[j]) as int])
}

/// The picks are what Kruskal's algorithm accepts: they come in the order of
/// their weights; each joins two vertices that the picks before it do not
/// connect; and every other edge between two vertices of the graph closes a
/// cycle with picks that are no heavier than it.
pub open spec fn is_greedy_forest<N>(
    nodes: Set<N>,
    edges: Seq<(N, N, i32)>,
    picks: Seq<usize>,
) -> bool {
    &&& is_choice(nodes, edges, picks)
    &&& forall|i: int, j: int|
        0 <= i < j < picks.len() ==> edges[(#[trigger] picks[i]) as int].2 <= edges[(
        #[trigger] picks[j]) as int].2
    &&& forall|j: int|
        0 <= j < picks.len() ==> !connected(
            forest_at(nodes, taken(edges, picks), j),
            edges[(#[trigger] picks[j]) as int].0,
            edges[picks[j] as int].1,
        )
    &&& forall|i: usize|
        i < edges.len() && has_ends(nodes, edges[i as int]) && !(#[trigger] picks.contains(i))
            ==> exists|k: int| closes_cycle(nodes, edges, picks, i as int, k)
}

/// No edge is lighter than the first of the weights that occur.
pub proof fn lemma_least_key<N>(edges: Seq<(N, N, i32)>, keys: Seq<i32>, x: int)
    requires
        is_increasing(keys),
        forall|w: i32| keys.contains(w) <==> occurs(edges, w),
        0 <= x < edges.len(),
    ensures
        keys.len() > 0,
        keys[0] <= edges[x].2,
{
    assert(occurs(edges, edges[x].2));
    assert(keys.contains(edges[x].2));
    let j = choose|j: int| 0 <= j < keys.len() && keys[j] == edges[x].2;
    assert(keys[j] == edges[x].2);
}

/// An edge that is heavier than one of the weights that occur is at least
/// as heavy as the next of them.
pub proof fn lemma_next_key<N>(edges: Seq<(N, N, i32)>, keys: Seq<i32>, at: int, x: int)
    requires
        is_increasing(keys),
        forall|w: i32| keys.contains(w) <==> occurs(edges, w),
        0 <= at < keys.len(),
        0 <= x < edges.len(),
        keys[at] < edges[x].2,
    ensures
        at + 1 < keys.len(),
        keys[at + 1] <= edges[x].2,
{
    assert(occurs(edges, edges[x].2));
    assert(keys.contains(edges[x].2));
    let j = choose|j: int| 0 <= j < keys.len() && keys[j] == edges[x].2;
    assert(keys[j] == edges[x].2);
    if j <= at {
        if j < at {
            assert(keys[j] < keys[at]);
        }
    } else if j > at + 1 {
        assert(keys[at + 1] < keys[j]);
    }
}

/// Picks the edges of a minimum spanning forest, by Kruskal's algorithm:
/// the edges are taken in the order of their weights, and an edge is picked
/// when it joins two of the vertices `nodes` that the edges picked before it
/// do not connect; the run ends when one edge fewer than there are vertices
/// is picked, or no edge is left. Edges with an end that is not among
/// `nodes` are passed over.
///
/// Returns the positions of the picked edges, in the order in which they
/// were picked. They are a minimum spanning forest of the graph; there are
/// as many of them as there are vertices, less the number of components of
/// the graph: one fewer than there are vertices where the graph is in one
/// piece.
pub fn pick_spanning_edges<N: Eq + Hash + Clone>(
    nodes: &Vec<N>,
    edges: &Vec<(N, N, i32)>,
) -> (picks: Vec<usize>)
    requires
        id_model::<N>(),
    ensures
        is_greedy_forest(nodes@.to_set(), edges@, picks@),
        is_minimum_spanning_forest(nodes@.to_set(), edges@, picks@),
        nodes@.len() > 0 ==> picks@.len() < nodes@.len(),
        has_components(
            with_edges(bare(nodes@.to_set()), edges@),
            nodes@.to_set().len() - picks@.len(),
        ),
        nodes@.len() > 0 && is_one_piece(with_edges(bare(nodes@.to_set()), edges@))
            ==> picks@.len() + 1 == nodes@.to_set().len(),
{
    let ghost all = nodes@.to_set();
    let ghost list = edges@;
    let n: usize = nodes.len();
    proof {
        vstd::seq_lib::seq_to_set_is_finite(nodes@);
    }

    // one singleton set per vertex
    let mut index: HashMap<N, usize> = HashMap::new();
    let mut node_set = forest_new();
    let mut i: usize = 0;
    proof {
        assert(tags_in(subsets(node_set), 0) =~= Set::<usize>::empty());
    }
    while i < n
        invariant
            id_model::<N>(),
            n == nodes.len(),
            i <= n,
            forall|v: N|
                index@.contains_key(v) <==> exists|j: int| 0 <= j < i && #[trigger] nodes@[j] == v,
            forall|v: N|
                index@.contains_key(v) ==> (#[trigger] index@[v]) < i && nodes@[index@[v] as int]
                    == v,
            forall|x: usize| subsets(node_set).contains_key(x) <==> x < i,
            forall|x: usize, y: usize|
                x < i && y < i && x != y ==> #[trigger] subsets(node_set)[x]
                    != #[trigger] subsets(node_set)[y],
            tags_in(subsets(node_set), i as nat).finite(),
            tags_in(subsets(node_set), i as nat).len() == i,
        decreases n - i,
    {
        let ghost before = index@;
        let ghost parts = subsets(node_set);
        let ghost v = nodes@[i as int];
        index.insert(clone_value(&nodes[i]), i);
        forest_make_set(&mut node_set, i);
        proof {
            assert forall|u: N| index@.contains_key(u) implies exists|j: int|
                0 <= j < i + 1 && #[trigger] nodes@[j] == u by {
                if u != v {
                    assert(before.contains_key(u));
                    let j = choose|j: int| 0 <= j < i && #[trigger] nodes@[j] == u;
                    assert(nodes@[j] == u);
                }
            }
            assert forall|j: usize| j < i implies #[trigger] subsets(node_set)[j] == parts[j] by {
                assert(parts.contains_key(j));
            }
            assert forall|j: usize| j < i implies #[trigger] parts[j] != subsets(
                node_set,
            )[i as usize] by {
                assert(parts.contains_key(j));
            }
            lemma_tags_fresh(parts, subsets(node_set), i);
        }
        i += 1;
    }

    // the edges, in buckets by weight
    let mut buckets: HashMap<i32, HashSet<usize>> = HashMap::new();
    let mut i: usize = 0;
    while i < edges.len()
        invariant
            id_model::<N>(),
            i <= edges.len(),
            list == edges@,
            forall|k: i32, x: usize| #[trigger]
                bucket_of(buckets@, k).contains(x) <==> x < i && list[x as int].2 == k,
        decreases edges.len() - i,
    {
        let ghost before = buckets@;
        let weight: i32 = edges[i].2;
        add_to_bucket(&mut buckets, weight, i);
        proof {
            assert forall|k: i32, x: usize| #[trigger]
                bucket_of(buckets@, k).contains(x) <==> x < i + 1 && list[x as int].2 == k by {
                assert(bucket_of(before, k).contains(x) <==> x < i && list[x as int].2 == k);
                if k != weight {
                    assert(bucket_of(buckets@, k) == bucket_of(before, k));
                }
            }
        }
        i += 1;
    }
    // the weights that occur, in ascending order: the keys of the buckets
    let keys: Vec<i32> = distinct_weights(edges);
    let mut at: usize = 0;
    let mut current_bucket: i32 = if keys.len() > 0 {
        keys[0]
    } else {
        0
    };

    let target: usize = if n > 0 {
        n - 1
    } else {
        0
    };
    let mut mst_edges: Vec<usize> = Vec::new();
    let mut exhausted: bool = keys.len() == 0;
    let ghost mut examined: Seq<usize> = Seq::empty();
    let ghost mut tags: Map<N, usize> = Map::new(
        |x: N| all.contains(x),
        |x: N| subsets(node_set)[index@[x]],
    );
    proof {
        assert(index@.dom() =~= all) by {
            assert forall|u: N| index@.contains_key(u) <==> all.contains(u) by {
                assert(nodes@.to_set().contains(u) <==> nodes@.contains(u));
                if nodes@.contains(u) {
                    let j = choose|j: int| 0 <= j < nodes@.len() && nodes@[j] == u;
                    assert(nodes@[j] == u);
                }
            }
        }
        assert(tags.dom() =~= all);
        assert forall|x: N, y: N|
            tags.contains_key(x) && tags.contains_key(y) && x != y implies #[trigger] tags[x]
            != #[trigger] tags[y] by {
            assert(index@.contains_key(x) && index@.contains_key(y));
            assert(index@[x] != index@[y]);
        }
        assert forall|x: int| 0 <= x < list.len() implies
            current_bucket <= (#[trigger] list[x]).2 by {
            lemma_least_key(list, keys@, x);
        }
        if list.len() > 0 {
            lemma_least_key(list, keys@, 0);
        }
        lemma_forest_starts(all, list, tags, current_bucket as int);
    }
    while mst_edges.len() < target && !exhausted
        invariant
            id_model::<N>(),
            list == edges@,
            all == nodes@.to_set(),
            all.finite(),
            n == nodes.len(),
            target == if n > 0 {
                (n - 1) as usize
            } else {
                0usize
            },
            index@.dom() == all,
            forall|x: N| all.contains(x) ==> (#[trigger] index@[x]) < n,
            forall|x: usize| subsets(node_set).contains_key(x) <==> x < n,
            forall|x: N| all.contains(x) ==> #[trigger] tags[x] == subsets(node_set)[index@[x]],
            tags_in(subsets(node_set), n as nat).finite(),
            tags_in(subsets(node_set), n as nat).len() == n - mst_edges@.len(),
            pick_inv(list, buckets@, examined, mst_edges@),
            forest_inv(all, list, mst_edges@, examined, tags, current_bucket as int),
            is_increasing(keys@),
            forall|w: i32| keys@.contains(w) <==> occurs(list, w),
            !exhausted ==> at < keys.len() && current_bucket == keys@[at as int],
            exhausted ==> forall|x: usize| x < list.len() ==> #[trigger] examined.contains(x),
        decreases list.len() - examined.len(), keys.len() - at,
    {
        let key: i32 = current_bucket;
        let ghost before = buckets@;
        proof {
            lemma_selection_len(examined, list.len());
        }
        match get_next_vertex(&mut buckets, &mut current_bucket) {
            Ok(position) => {
                proof {
                    assert(bucket_of(before, key).contains(position));
                    lemma_selection_push(examined, list.len(), position);
                }
                let ghost examined0 = examined;
                proof {
                    examined = examined.push(position);
                    lemma_selection_len(examined, list.len());
                    assert forall|k: i32, x: usize| #[trigger]
                        bucket_of(buckets@, k).contains(x) <==> x < list.len()
                            && !examined.contains(x) && list[x as int].2 == k by {
                        assert(bucket_of(before, k).contains(x) <==> x < list.len()
                            && !examined0.contains(x) && list[x as int].2 == k);
                        if k != key {
                            assert(bucket_of(buckets@, k) == bucket_of(before, k));
                        }
                    }
                    assert forall|j: int| 0 <= j < mst_edges@.len() implies examined.contains(
                        #[trigger] mst_edges@[j],
                    ) by {
                        assert(examined0.contains(mst_edges@[j]));
                    }
                }
                let ghost source = list[position as int].0;
                let ghost destination = list[position as int].1;
                let source_index: Option<usize> = match index.get(&edges[position].0) {
                    Some(x) => Some(*x),
                    None => None,
                };
                let destination_index: Option<usize> = match index.get(&edges[position].1) {
                    Some(x) => Some(*x),
                    None => None,
                };
                let mut accepted: bool = false;
                match (source_index, destination_index) {
                    (Some(a), Some(b)) => {
                        proof {
                            assert(all.contains(source) && all.contains(destination));
                            assert(subsets(node_set).contains_key(a));
                            assert(subsets(node_set).contains_key(b));
                        }
                        let source_tag = forest_find(&mut node_set, a);
                        let destination_tag = forest_find(&mut node_set, b);
                        let joined: bool = match (source_tag, destination_tag) {
                            (Some(x), Some(y)) => x == y,
                            _ => true,
                        };
                        if !joined {
                            let ghost parts = subsets(node_set);
                            proof {
                                assert(!mst_edges@.contains(position)) by {
                                    if mst_edges@.contains(position) {
                                        let j = choose|j: int|
                                            0 <= j < mst_edges@.len() && mst_edges@[j] == position;
                                        assert(examined0.contains(mst_edges@[j]));
                                    }
                                }
                                lemma_selection_push(mst_edges@, list.len(), position);
                                lemma_forest_accepts(
                                    all,
                                    list,
                                    mst_edges@,
                                    examined0,
                                    tags,
                                    key as int,
                                    position,
                                );
                                lemma_tags_merge(parts, n as nat, a, b);
                            }
                            mst_edges.push(position);
                            let _ = forest_union(&mut node_set, b, a);
                            accepted = true;
                            proof {
                                let tags0 = tags;
                                tags = retagged(tags0, tags0[destination], tags0[source]);
                                assert forall|x: N| all.contains(x) implies #[trigger] tags[x]
                                    == subsets(node_set)[index@[x]] by {
                                    assert(tags0[x] == parts[index@[x]]);
                                    assert(parts.contains_key(index@[x]));
                                }
                                assert forall|x: usize|
                                    subsets(node_set).contains_key(x) <==> x < n by {
                                    assert(parts.contains_key(x) <==> x < n);
                                }
                            }
                        }
                    },
                    _ => {},
                }
                proof {
                    if !accepted {
                        lemma_forest_rejects(
                            all,
                            list,
                            mst_edges@,
                            examined0,
                            tags,
                            key as int,
                            position,
                        );
                    }
                }
            },
            Err(_) => {
                let ghost skipped = current_bucket;
                proof {
                    assert forall|x: usize|
                        x < list.len() && !(#[trigger] examined.contains(x)) implies
                            list[x as int].2
                        != key by {
                        if list[x as int].2 == key {
                            assert(bucket_of(before, key).contains(x));
                        }
                    }
                }
                at += 1;
                if at < keys.len() {
                    current_bucket = keys[at];
                } else {
                    exhausted = true;
                }
                proof {
                    assert forall|x: usize|
                        x < list.len() && !(#[trigger] examined.contains(x)) implies at
                        < keys.len() && keys@[at as int] <= list[x as int].2 by {
                        lemma_next_key(list, keys@, at - 1, x as int);
                    }
                    if at < keys.len() {
                        lemma_forest_advances(
                            all,
                            list,
                            mst_edges@,
                            examined,
                            tags,
                            key as int,
                            current_bucket as int,
                        );
                    } else {
                        lemma_forest_advances(
                            all,
                            list,
                            mst_edges@,
                            examined,
                            tags,
                            key as int,
                            skipped as int,
                        );
                    }
                }
            },
        }
    }
    proof {
        if !exhausted {
            assert forall|x: N, y: N|
                tags.contains_key(x) && tags.contains_key(y) implies #[trigger] tags[x]
                == #[trigger] tags[y] by {
                assert(all.contains(x) && all.contains(y));
                lemma_tags_single(subsets(node_set), n as nat, index@[x], index@[y]);
            }
        }
        lemma_forest_done(all, list, mst_edges@, examined, tags, current_bucket as int);
        lemma_greedy_is_minimum(all, list, mst_edges@);
        lemma_greedy_count(all, list, mst_edges@);
        if n > 0 && is_one_piece(with_edges(bare(all), list)) {
            assert(all.contains(nodes@[0])) by {
                assert(nodes@.to_set().contains(nodes@[0]));
            }
            assert(all.len() > 0) by {
                if all.len() == 0 {
                    all.lemma_len0_is_empty();
                }
            }
            lemma_greedy_tree(all, list, mst_edges@);
        }
        if n > 0 {
            assert(tags_in(subsets(node_set), n as nat).contains(subsets(node_set)[0usize])) by {
                assert(subsets(node_set)[0usize] == subsets(node_set)[0usize]);
            }
            assert(tags_in(subsets(node_set), n as nat).len() > 0);
        }
    }
    mst_edges
}

} // verus!

//! The k-core decomposition of a graph, by peeling.

use vstd::prelude::*;
use std::collections::HashMap;
use std::collections::HashSet;
use std::hash::Hash;
use crate::buckets::{add_to_bucket, bucket_of, get_next_vertex, remove_from_bucket};
use crate::ids::{clone_value, id_model};
use crate::kcore::{
    append_to_list, degrees_fit, is_core_listing, is_listing, is_live, is_undirected, lemma_lower,
    lemma_next_core, lemma_peel, lemma_peel_starts, lemma_peeled_all, lemma_same_degree, peel_inv,
    MetadataKCore,
};
use crate::kcore_run::{
    exact_inv, exact_mid, lemma_exact_listing, lemma_exact_next_core, lemma_exact_peel,
    lemma_exact_same_degree, lemma_exact_settled, lemma_exact_starts, lemma_exact_step,
};
use crate::topology::Topology;

verus! {

/// The k-core decomposition of the graph, by peeling: vertices of least
/// current degree are taken off one by one, and each time the degree of
/// every neighbour that is still above it goes down by one.
///
/// Returns, under each core number, the vertices that were assigned it,
/// in the order in which they were taken off. Every vertex is listed
/// once. When the graph is undirected (every arc enters a vertex of the
/// graph, and as many arcs lead from one vertex to another as lead
/// back) and no vertex has `i32::MAX` arcs or more, the number under
/// which a vertex is listed is its core number:
/// the greatest `k` for which the vertex lies in a set of vertices that
/// each have `k` arcs or more into the set.
pub fn k_core_decomposition<N: Eq + Hash + Clone, G: Topology<N>>(graph: &G) -> (r: HashMap<
    u32,
    Vec<N>,
>)
    requires
        id_model::<N>(),
        graph.wf(),
    ensures
        is_listing(graph.adjacency(), r@),
        is_undirected(graph.adjacency()) && degrees_fit(graph.adjacency()) ==> is_core_listing(
            graph.adjacency(),
            r@,
        ),
{
    let mut buckets: HashMap<i32, HashSet<N>> = HashMap::new();
    let mut metadata: HashMap<N, MetadataKCore<N>> = HashMap::new();
    let mut result: HashMap<u32, Vec<N>> = HashMap::new();
    let mut max_degree: i32 = 0;
    let mut current_core: i32 = 0;
    let ghost adj = graph.adjacency();
    let nodes: Vec<N> = graph.vertex_ids();
    proof {
        vstd::seq_lib::seq_to_set_is_finite(nodes@);
    }

    let mut i: usize = 0;
    while i < nodes.len()
        invariant
            id_model::<N>(),
            graph.wf(),
            adj == graph.adjacency(),
            nodes@.to_set() == adj.nodes(),
            nodes@.no_duplicates(),
            i <= nodes.len(),
            0 <= max_degree < i32::MAX,
            forall|v: N|
                metadata@.contains_key(v) <==> exists|j: int|
                    0 <= j < i && #[trigger] nodes@[j] == v,
            forall|v: N| #[trigger]
                metadata@.contains_key(v) ==> metadata@[v].degree <= adj.degree(v)
                    && metadata@[v].degree <= max_degree && (degrees_fit(adj)
                    ==> metadata@[v].degree == adj.degree(v)),
            forall|k: i32, v: N| #[trigger]
                bucket_of(buckets@, k).contains(v) <==> metadata@.contains_key(v)
                    && metadata@[v].degree == k,
        decreases nodes.len() - i,
    {
        let ghost v = nodes@[i as int];
        let ghost before = metadata@;
        let ghost buckets_before = buckets@;
        proof {
            assert(nodes@.to_set().contains(v));
            assert(adj.has_node(v));
            if before.contains_key(v) {
                let j = choose|j: int| 0 <= j < i && #[trigger] nodes@[j] == v;
                assert(nodes@[j] == nodes@[i as int]);
            }
        }
        let degree: i32 = match graph.out_degree(&nodes[i]) {
            Ok(d) => if d >= i32::MAX as usize {
                i32::MAX - 1
            } else {
                d as i32
            },
            Err(_) => 0,
        };
        add_to_bucket(&mut buckets, degree, clone_value(&nodes[i]));
        metadata.insert(
            clone_value(&nodes[i]),
            MetadataKCore { id: clone_value(&nodes[i]), degree: degree as u32, core: 0 },
        );
        if degree > max_degree {
            max_degree = degree;
        }
        proof {
            assert forall|u: N| metadata@.contains_key(u) implies exists|j: int|
                0 <= j < i + 1 && #[trigger] nodes@[j] == u by {
                if u != v {
                    assert(before.contains_key(u));
                    let j = choose|j: int| 0 <= j < i && #[trigger] nodes@[j] == u;
                    assert(nodes@[j] == u);
                }
            }
            assert forall|k: i32, u: N| #[trigger]
                bucket_of(buckets@, k).contains(u) <==> metadata@.contains_key(u)
                    && metadata@[u].degree == k by {
                assert(bucket_of(buckets_before, k).contains(u) <==> before.contains_key(u)
                    && before[u].degree == k);
                if k != degree {
                    assert(bucket_of(buckets@, k) == bucket_of(buckets_before, k));
                }
            }
        }
        i += 1;
    }
    let ghost mut order: Seq<N> = Seq::empty();
    proof {
        assert(metadata@.dom() =~= adj.nodes()) by {
            assert forall|u: N| metadata@.contains_key(u) <==> adj.nodes().contains(u) by {
                assert(nodes@.to_set().contains(u) <==> nodes@.contains(u));
                if nodes@.contains(u) {
                    let j = choose|j: int| 0 <= j < nodes@.len() && nodes@[j] == u;
                    assert(nodes@[j] == u);
                }
            }
        }
        assert(result@ =~= Map::<u32, Vec<N>>::empty());
        lemma_peel_starts(adj, metadata@, buckets@, result@, max_degree as int);
        if is_undirected(adj) && degrees_fit(adj) {
            lemma_exact_starts(adj, metadata@);
        }
    }

    while current_core <= max_degree
        invariant
            id_model::<N>(),
            graph.wf(),
            adj == graph.adjacency(),
            peel_inv(
                adj,
                metadata@,
                buckets@,
                result@,
                order,
                current_core as int,
                max_degree as int,
            ),
            is_undirected(adj) && degrees_fit(adj)
                ==> exact_inv(adj, metadata@, order, current_core as int),
            current_core <= max_degree + 1,
        decreases adj.nodes().len() - order.len(), max_degree + 1 - current_core,
    {
        let ghost c = current_core;
        let ghost buckets0 = buckets@;
        match get_next_vertex(&mut buckets, &mut current_core) {
            Ok(v) => {
                let ghost lists0 = result@;
                let v_degree: u32 = match metadata.get(&v) {
                    Some(record) => record.degree,
                    None => {
                        proof {
                            assert(bucket_of(buckets0, c).contains(v));
                            assert(is_live(adj, order, v));
                        }
                        assert(false);
                        0
                    },
                };
                proof {
                    assert(bucket_of(buckets0, c).contains(v));
                    assert(is_live(adj, order, v) && metadata@[v].degree == c);
                }
                // the core number of the vertex is the degree it has now
                let ghost unassigned = metadata@;
                metadata.insert(
                    clone_value(&v),
                    MetadataKCore { id: clone_value(&v), degree: v_degree, core: v_degree },
                );
                proof {
                    lemma_same_degree(
                        adj,
                        unassigned,
                        buckets0,
                        lists0,
                        order,
                        c as int,
                        max_degree as int,
                        v,
                        metadata@[v],
                    );
                    if is_undirected(adj) && degrees_fit(adj) {
                        lemma_exact_same_degree(adj, unassigned, order, c as int, v, metadata@[v]);
                    }
                }
                append_to_list(&mut result, v_degree, clone_value(&v));
                proof {
                    lemma_peel(
                        adj,
                        metadata@,
                        buckets0,
                        lists0,
                        order,
                        c as int,
                        max_degree as int,
                        v,
                        buckets@,
                        result@,
                    );
                    if is_undirected(adj) && degrees_fit(adj) {
                        lemma_exact_peel(adj, metadata@, order, c as int, v);
                    }
                    order = order.push(v);
                    assert(order[order.len() - 1] == v);
                }
                let neighbours = graph.neighbour_ids(&v);
                let mut j: usize = 0;
                while j < neighbours.len()
                    invariant
                        id_model::<N>(),
                        adj == graph.adjacency(),
                        j <= neighbours.len(),
                        v_degree == c,
                        current_core == c,
                        c <= max_degree,
                        peel_inv(
                            adj,
                            metadata@,
                            buckets@,
                            result@,
                            order,
                            c as int,
                            max_degree as int,
                        ),
                        neighbours@ == adj.neighbours(v),
                        adj.has_node(v),
                        order.contains(v),
                        is_undirected(adj) && degrees_fit(adj) ==> exact_mid(
                            adj,
                            metadata@,
                            order,
                            c as int,
                            v,
                            j as int,
                        ),
                    decreases neighbours.len() - j,
                {
                    let ghost metadata0 = metadata@;
                    let ghost buckets0 = buckets@;
                    proof {
                        assert(adj.out_arcs(v)[j as int].0 == neighbours@[j as int]);
                    }
                    let found: Option<(u32, u32)> = match metadata.get(&neighbours[j]) {
                        Some(record) => Some((record.degree, record.core)),
                        None => None,
                    };
                    match found {
                        Some((u_degree, u_core)) => {
                            if u_degree > v_degree {
                                let ghost m0 = metadata@;
                                let ghost b0 = buckets@;
                                let ghost u = neighbours@[j as int];
                                proof {
                                    assert(m0.contains_key(u));
                                    assert(is_live(adj, order, u));
                                }
                                remove_from_bucket(&mut buckets, u_degree as i32, &neighbours[j]);
                                let ghost b1 = buckets@;
                                add_to_bucket(
                                    &mut buckets,
                                    (u_degree - 1) as i32,
                                    clone_value(&neighbours[j]),
                                );
                                metadata.insert(
                                    clone_value(&neighbours[j]),
                                    MetadataKCore {
                                        id: clone_value(&neighbours[j]),
                                        degree: u_degree - 1,
                                        core: u_core,
                                    },
                                );
                                proof {
                                    assert forall|k: i32|
                                        k != u_degree && k != u_degree - 1 implies
                                            #[trigger] bucket_of(
                                        buckets@,
                                        k,
                                    ) == bucket_of(b0, k) by {
                                        assert(bucket_of(b1, k) == bucket_of(b0, k));
                                    }
                                    assert(bucket_of(b1, (u_degree - 1) as i32) == bucket_of(
                                        b0,
                                        (u_degree - 1) as i32,
                                    ));
                                    assert(bucket_of(buckets@, u_degree as i32) == bucket_of(
                                        b1,
                                        u_degree as i32,
                                    ));
                                    lemma_lower(
                                        adj,
                                        m0,
                                        b0,
                                        result@,
                                        order,
                                        c as int,
                                        max_degree as int,
                                        u,
                                        metadata@[u],
                                        buckets@,
                                    );
                                }
                            }
                        },
                        None => {},
                    }
                    proof {
                        if is_undirected(adj) && degrees_fit(adj) {
                            lemma_exact_step(
                                adj,
                                metadata0,
                                buckets0,
                                result@,
                                order,
                                c as int,
                                max_degree as int,
                                v,
                                j as int,
                                metadata@,
                            );
                        }
                    }
                    j += 1;
                }
                proof {
                    if is_undirected(adj) && degrees_fit(adj) {
                        lemma_exact_settled(adj, metadata@, order, c as int, v);
                    }
                }
            },
            Err(_) => {
                proof {
                    lemma_next_core(
                        adj,
                        metadata@,
                        buckets@,
                        result@,
                        order,
                        c as int,
                        max_degree as int,
                    );
                    if is_undirected(adj) && degrees_fit(adj) {
                        assert forall|u: N| #[trigger] is_live(adj, order, u) implies
                            metadata@[u].degree
                            > c by {
                            assert(c + 1 <= metadata@[u].degree);
                        }
                        lemma_exact_next_core(adj, metadata@, order, c as int);
                    }
                }
            },
        }
    }
    proof {
        lemma_peeled_all(
            adj,
            metadata@,
            buckets@,
            result@,
            order,
            current_core as int,
            max_degree as int,
        );
        if is_undirected(adj) && degrees_fit(adj) {
            lemma_exact_listing(
                adj,
                metadata@,
                buckets@,
                result@,
                order,
                current_core as int,
                max_degree as int,
            );
        }
    }
    result
}

} // verus!

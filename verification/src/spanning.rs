//! Forests: how many components they leave, and why no forest has more
//! edges than one that connects as much.

use vstd::prelude::*;
use crate::kruskal::{bare, forest_at, has_ends, is_greedy_forest, taken, with_edges};
use crate::kruskal_run::{
    lemma_choice_within, lemma_edge_inserted, lemma_forest_nodes, lemma_forest_spans, lemma_join,
    lemma_tags_along_walk, lemma_tags_start, retagged, tags_match,
};
use crate::minimality::lemma_greedy_spans;
use crate::model::{lemma_arc_inserted, Adjacency};
use crate::walks::connected;

verus! {

/// The edge joins `x` and `y`, one way or the other.
pub open spec fn joins<N>(edge: (N, N, i32), x: N, y: N) -> bool {
    (edge.0 == x && edge.1 == y) || (edge.0 == y && edge.1 == x)
}

/// The edges lie between vertices of `nodes`.
pub open spec fn lies_within<N>(nodes: Set<N>, edges: Seq<(N, N, i32)>) -> bool {
    forall|j: int| 0 <= j < edges.len() ==> has_ends(nodes, #[trigger] edges[j])
}

/// The edges form a forest on `nodes`: each joins two vertices of `nodes`
/// that the edges before it do not connect.
pub open spec fn is_forest<N>(nodes: Set<N>, edges: Seq<(N, N, i32)>) -> bool {
    &&& lies_within(nodes, edges)
    &&& forall|j: int|
        0 <= j < edges.len() ==> !connected(
            forest_at(nodes, edges, j),
            (#[trigger] edges[j]).0,
            edges[j].1,
        )
}

/// The arcs of the graph that a list of edges builds are the edges, each in
/// both directions.
pub proof fn lemma_forest_arcs<N>(nodes: Set<N>, edges: Seq<(N, N, i32)>, k: int, x: N, y: N)
    requires
        0 <= k <= edges.len(),
        lies_within(nodes, edges),
    ensures
        forest_at(nodes, edges, k).has_arc(x, y) <==> exists|j: int|
            0 <= j < k && joins(#[trigger] edges[j], x, y),
    decreases k,
{
    if k == 0 {
        assert(edges.take(0) =~= Seq::<(N, N, i32)>::empty());
        assert(bare(nodes).out_arcs(x).len() == 0);
    } else {
        lemma_forest_arcs(nodes, edges, k - 1, x, y);
        let before = forest_at(nodes, edges, k - 1);
        let last = edges[k - 1];
        assert(edges.take(k).drop_last() =~= edges.take(k - 1));
        assert(edges.take(k).last() == last);
        lemma_forest_nodes(nodes, edges, k - 1);
        assert(has_ends(nodes, last));
        assert(before.has_node(last.0) && before.has_node(last.1));
        lemma_edge_inserted(before, last.0, last.1, last.2);
        if forest_at(nodes, edges, k).has_arc(x, y) {
            if before.has_arc(x, y) {
                let j = choose|j: int| 0 <= j < k - 1 && joins(#[trigger] edges[j], x, y);
                assert(joins(edges[j], x, y));
            } else {
                assert(joins(edges[k - 1], x, y));
            }
        }
        if exists|j: int| 0 <= j < k && joins(#[trigger] edges[j], x, y) {
            let j = choose|j: int| 0 <= j < k && joins(#[trigger] edges[j], x, y);
            if j < k - 1 {
                assert(joins(edges[j], x, y));
            }
        }
    }
}

/// When one component takes the tag of another, one tag goes.
pub proof fn lemma_retagged_values<N>(tags: Map<N, N>, a: N, b: N)
    requires
        tags.dom().finite(),
        tags.contains_key(a),
        tags.contains_key(b),
        tags[a] != tags[b],
    ensures
        tags.values().finite(),
        retagged(tags, tags[b], tags[a]).values().finite(),
        retagged(tags, tags[b], tags[a]).values().len() + 1 == tags.values().len(),
{
    let after = retagged(tags, tags[b], tags[a]);
    vstd::map_lib::lemma_values_finite(tags);
    assert(after.values() =~= tags.values().remove(tags[b])) by {
        assert forall|t: N| after.values().contains(t) <==> tags.values().remove(tags[b]).contains(
            t,
        ) by {
            if after.values().contains(t) {
                let x = choose|x: N| after.contains_key(x) && after[x] == t;
                assert(tags.contains_key(x));
                if tags[x] == tags[b] {
                    assert(tags.values().contains(tags[a]));
                } else {
                    assert(tags.values().contains(tags[x]));
                }
            }
            if tags.values().contains(t) && t != tags[b] {
                let x = choose|x: N| tags.contains_key(x) && tags[x] == t;
                assert(after.contains_key(x));
                assert(after[x] == t);
            }
        }
    }
    assert(tags.values().contains(tags[b]));
}

/// A forest of `k` edges on `n` vertices leaves `n - k` components: there
/// are tags that tell the components apart, and `n - k` of them are in use.
pub proof fn lemma_components<N>(nodes: Set<N>, edges: Seq<(N, N, i32)>, k: int) -> (tags: Map<
    N,
    N,
>)
    requires
        nodes.finite(),
        is_forest(nodes, edges),
        0 <= k <= edges.len(),
    ensures
        tags.dom() == nodes,
        tags_match(forest_at(nodes, edges, k), tags),
        tags.values().finite(),
        tags.values().len() + k == nodes.len(),
    decreases k,
{
    if k == 0 {
        let tags = Map::new(|x: N| nodes.contains(x), |x: N| x);
        assert(tags.dom() =~= nodes);
        assert(tags.values() =~= nodes) by {
            assert forall|t: N| tags.values().contains(t) <==> nodes.contains(t) by {
                if nodes.contains(t) {
                    assert(tags.contains_key(t) && tags[t] == t);
                }
            }
        }
        lemma_tags_start(nodes, tags);
        assert(edges.take(0) =~= Seq::<(N, N, i32)>::empty());
        tags
    } else {
        let before = lemma_components(nodes, edges, k - 1);
        let forest = forest_at(nodes, edges, k - 1);
        let last = edges[k - 1];
        assert(edges.take(k).drop_last() =~= edges.take(k - 1));
        assert(edges.take(k).last() == last);
        lemma_forest_nodes(nodes, edges, k - 1);
        assert(has_ends(nodes, last));
        assert(forest.has_node(last.0) && forest.has_node(last.1));
        assert(!connected(forest, last.0, last.1));
        assert(before.contains_key(last.0) && before.contains_key(last.1));
        lemma_join(forest, before, last.0, last.1, last.2);
        lemma_retagged_values(before, last.0, last.1);
        let tags = retagged(before, before[last.1], before[last.0]);
        assert(tags.dom() =~= nodes);
        tags
    }
}

/// Where one tagging tells apart whatever another does, it uses at least
/// as many tags.
pub proof fn lemma_finer_tags<N>(fine: Map<N, N>, coarse: Map<N, N>)
    requires
        fine.dom().finite(),
        fine.dom() == coarse.dom(),
        forall|x: N, y: N|
            fine.contains_key(x) && fine.contains_key(y) && #[trigger] fine[x] == #[trigger] fine[y]
                ==> coarse[x] == coarse[y],
    ensures
        fine.values().finite(),
        coarse.values().finite(),
        coarse.values().len() <= fine.values().len(),
{
    vstd::map_lib::lemma_values_finite(fine);
    vstd::map_lib::lemma_values_finite(coarse);
    let to_coarse = |t: N| coarse[choose|x: N| fine.contains_key(x) && fine[x] == t];
    assert(fine.values().map(to_coarse) =~= coarse.values()) by {
        assert forall|c: N| fine.values().map(to_coarse).contains(c) <==> coarse.values().contains(
            c,
        ) by {
            if fine.values().map(to_coarse).contains(c) {
                let t = choose|t: N| fine.values().contains(t) && c == to_coarse(t);
                let x = choose|x: N| fine.contains_key(x) && fine[x] == t;
                assert(fine.contains_key(x) && fine[x] == t);
                assert(coarse.contains_key(x));
            }
            if coarse.values().contains(c) {
                let y = choose|y: N| coarse.contains_key(y) && coarse[y] == c;
                let t = fine[y];
                assert(fine.contains_key(y));
                assert(fine.values().contains(t));
                let x = choose|x: N| fine.contains_key(x) && fine[x] == t;
                assert(fine[x] == fine[y]);
                assert(to_coarse(t) == c);
            }
        }
    }
    vstd::set_lib::lemma_map_size_bound(fine.values(), coarse.values(), to_coarse);
}

/// What a list of edges connects is connected in a forest that connects the
/// ends of each of these edges.
pub proof fn lemma_connected_within<N>(
    nodes: Set<N>,
    edges: Seq<(N, N, i32)>,
    forest: Seq<(N, N, i32)>,
    x: N,
    y: N,
)
    requires
        nodes.finite(),
        lies_within(nodes, edges),
        is_forest(nodes, forest),
        forall|j: int|
            0 <= j < edges.len() ==> connected(
                forest_at(nodes, forest, forest.len() as int),
                (#[trigger] edges[j]).0,
                edges[j].1,
            ),
        connected(forest_at(nodes, edges, edges.len() as int), x, y),
    ensures
        connected(forest_at(nodes, forest, forest.len() as int), x, y),
{
    let tags = lemma_components(nodes, forest, forest.len() as int);
    let built = forest_at(nodes, edges, edges.len() as int);
    let p = choose|p: Seq<N>| #[trigger] built.is_walk_between(p, x, y);
    lemma_forest_nodes(nodes, edges, edges.len() as int);
    assert forall|u: N, v: N|
        tags.contains_key(u) && tags.contains_key(v) && #[trigger] built.has_arc(u, v) implies
            tags[u]
        == tags[v] by {
        lemma_forest_arcs(nodes, edges, edges.len() as int, u, v);
        let j = choose|j: int| 0 <= j < edges.len() && joins(#[trigger] edges[j], u, v);
        assert(connected(forest_at(nodes, forest, forest.len() as int), edges[j].0, edges[j].1));
        assert(has_ends(nodes, edges[j]));
    }
    lemma_tags_along_walk(built, tags, p);
    assert(built.has_node(p[0]) && built.has_node(p[p.len() - 1]));
    assert(tags.contains_key(x) && tags.contains_key(y));
}

/// A forest has at most as many edges as a forest that connects the ends of
/// each of its edges.
pub proof fn lemma_forest_rank<N>(nodes: Set<N>, small: Seq<(N, N, i32)>, large: Seq<(N, N, i32)>)
    requires
        nodes.finite(),
        is_forest(nodes, small),
        is_forest(nodes, large),
        forall|j: int|
            0 <= j < small.len() ==> connected(
                forest_at(nodes, large, large.len() as int),
                (#[trigger] small[j]).0,
                small[j].1,
            ),
    ensures
        small.len() <= large.len(),
{
    let fine = lemma_components(nodes, small, small.len() as int);
    let coarse = lemma_components(nodes, large, large.len() as int);
    assert forall|x: N, y: N|
        fine.contains_key(x) && fine.contains_key(y)
            && #[trigger] fine[x] == #[trigger] fine[y] implies coarse[x]
        == coarse[y] by {
        assert(connected(forest_at(nodes, small, small.len() as int), x, y));
        lemma_connected_within(nodes, small, large, x, y);
        assert(coarse.contains_key(x) && coarse.contains_key(y));
    }
    lemma_finer_tags(fine, coarse);
}

/// The graph falls into `c` components: there are tags that tell its
/// components apart, and `c` of them are in use.
pub open spec fn has_components<N>(adj: Adjacency<N>, c: int) -> bool {
    exists|tags: Map<N, N>| #[trigger]
        tags_match(adj, tags) && tags.values().finite() && tags.values().len() == c
}

/// The graph is in one piece: a walk leads from every vertex to every other.
pub open spec fn is_one_piece<N>(adj: Adjacency<N>) -> bool {
    forall|x: N, y: N| adj.has_node(x) && adj.has_node(y) ==> #[trigger] connected(adj, x, y)
}

/// Whatever edges are inserted, the vertices stay as they are.
pub proof fn lemma_graph_nodes<N>(nodes: Set<N>, edges: Seq<(N, N, i32)>, k: int)
    requires
        0 <= k <= edges.len(),
    ensures
        forest_at(nodes, edges, k).nodes() == nodes,
    decreases k,
{
    if k == 0 {
        assert(edges.take(0) =~= Seq::<(N, N, i32)>::empty());
        assert(bare(nodes).nodes() =~= nodes);
    } else {
        lemma_graph_nodes(nodes, edges, k - 1);
        assert(edges.take(k).drop_last() =~= edges.take(k - 1));
        let before = forest_at(nodes, edges, k - 1);
        let last = edges[k - 1];
        assert(edges.take(k).last() == last);
        let middle = before.with_arc(last.0, last.1, last.2);
        assert(middle.nodes() =~= before.nodes());
        assert(middle.with_arc(last.1, last.0, last.2).nodes() =~= middle.nodes());
    }
}

/// From a vertex of the graph, the arcs of the graph that a list of edges
/// builds are the edges that have the vertex for an end, whether their
/// other end is a vertex or not.
pub proof fn lemma_graph_arcs<N>(nodes: Set<N>, edges: Seq<(N, N, i32)>, k: int, x: N, y: N)
    requires
        0 <= k <= edges.len(),
        nodes.contains(x),
    ensures
        forest_at(nodes, edges, k).has_arc(x, y) <==> exists|j: int|
            0 <= j < k && joins(#[trigger] edges[j], x, y),
    decreases k,
{
    if k == 0 {
        assert(edges.take(0) =~= Seq::<(N, N, i32)>::empty());
        assert(bare(nodes).out_arcs(x).len() == 0);
    } else {
        lemma_graph_arcs(nodes, edges, k - 1, x, y);
        lemma_graph_nodes(nodes, edges, k - 1);
        let before = forest_at(nodes, edges, k - 1);
        let last = edges[k - 1];
        assert(edges.take(k).drop_last() =~= edges.take(k - 1));
        assert(edges.take(k).last() == last);
        let middle = before.with_arc(last.0, last.1, last.2);
        let after = middle.with_arc(last.1, last.0, last.2);
        assert(forest_at(nodes, edges, k) == after);
        assert(middle.nodes() =~= before.nodes());
        assert(before.has_node(x));
        if before.has_node(last.0) {
            lemma_arc_inserted(before, last.0, last.1, last.2, x, y);
        }
        if middle.has_node(last.1) {
            lemma_arc_inserted(middle, last.1, last.0, last.2, x, y);
        }
        assert(after.has_arc(x, y) <==> before.has_arc(x, y) || joins(last, x, y));
        if after.has_arc(x, y) {
            if before.has_arc(x, y) {
                let j = choose|j: int| 0 <= j < k - 1 && joins(#[trigger] edges[j], x, y);
                assert(joins(edges[j], x, y));
            } else {
                assert(joins(edges[k - 1], x, y));
            }
        }
        if exists|j: int| 0 <= j < k && joins(#[trigger] edges[j], x, y) {
            let j = choose|j: int| 0 <= j < k && joins(#[trigger] edges[j], x, y);
            if j < k - 1 {
                assert(joins(edges[j], x, y));
            }
        }
    }
}

/// The forest that Kruskal's algorithm builds connects what the graph
/// connects, and nothing else.
pub proof fn lemma_same_pieces<N>(
    nodes: Set<N>,
    edges: Seq<(N, N, i32)>,
    picks: Seq<usize>,
    x: N,
    y: N,
)
    requires
        nodes.finite(),
        edges.len() <= usize::MAX,
        is_greedy_forest(nodes, edges, picks),
        nodes.contains(x),
        nodes.contains(y),
    ensures
        connected(with_edges(bare(nodes), edges), x, y) <==> connected(
            forest_at(nodes, taken(edges, picks), picks.len() as int),
            x,
            y,
        ),
{
    let own = taken(edges, picks);
    let graph = with_edges(bare(nodes), edges);
    let forest = forest_at(nodes, own, picks.len() as int);
    assert(edges.take(edges.len() as int) =~= edges);
    assert(graph == forest_at(nodes, edges, edges.len() as int));
    lemma_graph_nodes(nodes, edges, edges.len() as int);
    lemma_choice_within(nodes, edges, picks);
    lemma_forest_nodes(nodes, own, picks.len() as int);
    if connected(graph, x, y) {
        lemma_greedy_spans(nodes, edges, picks);
        let tags = lemma_components(nodes, own, picks.len() as int);
        let p = choose|p: Seq<N>| #[trigger] graph.is_walk_between(p, x, y);
        assert forall|u: N, v: N|
            tags.contains_key(u) && tags.contains_key(v) && #[trigger] graph.has_arc(
                u,
                v,
            ) implies tags[u] == tags[v] by {
            lemma_graph_arcs(nodes, edges, edges.len() as int, u, v);
            let j = choose|j: int| 0 <= j < edges.len() && joins(#[trigger] edges[j], u, v);
            assert(has_ends(nodes, edges[j]));
            lemma_forest_spans(nodes, edges, picks, j as usize);
            assert(connected(forest, edges[j].0, edges[j].1));
        }
        lemma_tags_along_walk(graph, tags, p);
        assert(graph.has_node(p[0]) && graph.has_node(p[p.len() - 1]));
    }
    if connected(forest, x, y) {
        let p = choose|p: Seq<N>| #[trigger] forest.is_walk_between(p, x, y);
        assert forall|i: int| 0 <= i < p.len() implies graph.has_node(#[trigger] p[i]) by {
            assert(forest.has_node(p[i]));
            assert(forest.nodes().contains(p[i]));
        }
        assert forall|i: int| 0 <= i < p.len() - 1 implies graph.has_arc(
            #[trigger] p[i],
            p[i + 1],
        ) by {
            assert(forest.has_arc(p[i], p[i + 1]));
            assert(forest.has_node(p[i]));
            assert(forest.nodes().contains(p[i]));
            lemma_forest_arcs(nodes, own, picks.len() as int, p[i], p[i + 1]);
            let j = choose|j: int| 0 <= j < picks.len() && joins(#[trigger] own[j], p[i], p[i + 1]);
            assert(joins(edges[picks[j] as int], p[i], p[i + 1]));
            lemma_graph_arcs(nodes, edges, edges.len() as int, p[i], p[i + 1]);
        }
        assert(graph.is_walk_between(p, x, y));
    }
}

/// Kruskal's algorithm accepts as many edges as there are vertices, less the
/// number of components of the graph.
pub proof fn lemma_greedy_count<N>(nodes: Set<N>, edges: Seq<(N, N, i32)>, picks: Seq<usize>)
    requires
        nodes.finite(),
        edges.len() <= usize::MAX,
        is_greedy_forest(nodes, edges, picks),
    ensures
        picks.len() <= nodes.len(),
        has_components(with_edges(bare(nodes), edges), nodes.len() - picks.len()),
{
    let own = taken(edges, picks);
    let graph = with_edges(bare(nodes), edges);
    lemma_greedy_spans(nodes, edges, picks);
    let tags = lemma_components(nodes, own, picks.len() as int);
    assert(edges.take(edges.len() as int) =~= edges);
    lemma_graph_nodes(nodes, edges, edges.len() as int);
    assert forall|x: N, y: N| tags.contains_key(x) && tags.contains_key(y) implies (tags[x]
        == tags[y] <==> #[trigger] connected(graph, x, y)) by {
        lemma_same_pieces(nodes, edges, picks, x, y);
    }
    assert(tags_match(graph, tags));
}

/// On a graph in one piece, Kruskal's algorithm accepts one edge fewer than
/// there are vertices.
pub proof fn lemma_greedy_tree<N>(nodes: Set<N>, edges: Seq<(N, N, i32)>, picks: Seq<usize>)
    requires
        nodes.finite(),
        nodes.len() > 0,
        edges.len() <= usize::MAX,
        is_greedy_forest(nodes, edges, picks),
        is_one_piece(with_edges(bare(nodes), edges)),
    ensures
        picks.len() + 1 == nodes.len(),
{
    let own = taken(edges, picks);
    let graph = with_edges(bare(nodes), edges);
    lemma_greedy_spans(nodes, edges, picks);
    let tags = lemma_components(nodes, own, picks.len() as int);
    assert(edges.take(edges.len() as int) =~= edges);
    lemma_graph_nodes(nodes, edges, edges.len() as int);
    let first = nodes.choose();
    assert(nodes.contains(first)) by {
        if nodes =~= Set::<N>::empty() {
        }
    }
    assert(tags.values() =~= set![tags[first]]) by {
        assert forall|t: N| tags.values().contains(t) <==> t == tags[first] by {
            if tags.values().contains(t) {
                let x = choose|x: N| tags.contains_key(x) && tags[x] == t;
                assert(graph.has_node(x) && graph.has_node(first));
                assert(connected(graph, x, first));
                lemma_same_pieces(nodes, edges, picks, x, first);
            }
            if t == tags[first] {
                assert(tags.contains_key(first));
            }
        }
    }
}

/// Where every arc between two vertices stems from an edge of the list,
/// whatever the arcs connect is connected in the graph that the edges
/// build.
pub proof fn lemma_arcs_within<N>(
    adj: Adjacency<N>,
    nodes: Set<N>,
    edges: Seq<(N, N, i32)>,
    x: N,
    y: N,
)
    requires
        adj.nodes() == nodes,
        forall|u: N, v: N|
            adj.has_node(u) && adj.has_node(v) && #[trigger] adj.has_arc(u, v) ==> exists|j: int|
                0 <= j < edges.len() && joins(#[trigger] edges[j], u, v),
        connected(adj, x, y),
    ensures
        connected(with_edges(bare(nodes), edges), x, y),
{
    let graph = with_edges(bare(nodes), edges);
    assert(edges.take(edges.len() as int) =~= edges);
    lemma_graph_nodes(nodes, edges, edges.len() as int);
    let p = choose|p: Seq<N>| #[trigger] adj.is_walk_between(p, x, y);
    assert forall|i: int| 0 <= i < p.len() implies graph.has_node(#[trigger] p[i]) by {
        assert(adj.has_node(p[i]));
        assert(adj.nodes().contains(p[i]));
    }
    assert forall|i: int| 0 <= i < p.len() - 1 implies graph.has_arc(#[trigger] p[i], p[i + 1]) by {
        assert(adj.has_arc(p[i], p[i + 1]));
        assert(adj.has_node(p[i]) && adj.has_node(p[i + 1]));
        assert(adj.nodes().contains(p[i]));
        lemma_graph_arcs(nodes, edges, edges.len() as int, p[i], p[i + 1]);
    }
    assert(graph.is_walk_between(p, x, y));
}

} // verus!

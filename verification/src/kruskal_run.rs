//! Why Kruskal's algorithm builds a spanning forest: what holds of the
//! disjoint-set forest and of the accepted edges throughout a run.

use vstd::prelude::*;
use crate::kruskal::{
    bare, closes_cycle, forest_at, has_ends, is_choice, is_greedy_forest, is_selection,
    lemma_selection_push, taken,
};
use crate::walks::connected;
use crate::forest::merged;
use crate::model::{lemma_arc_inserted, Adjacency};

verus! {

/// The tags tell the connected components apart: two vertices carry the same
/// tag exactly when some walk leads from one to the other.
pub open spec fn tags_match<N, T>(adj: Adjacency<N>, tags: Map<N, T>) -> bool {
    &&& tags.dom() == adj.nodes()
    &&& forall|x: N, y: N|
        tags.contains_key(x) && tags.contains_key(y)
            ==> (tags[x] == tags[y] <==> #[trigger] connected(
            adj,
            x,
            y,
        ))
}

/// The tags after the component tagged `from` is absorbed by the one tagged
/// `into`.
pub open spec fn retagged<N, T>(tags: Map<N, T>, from: T, into: T) -> Map<N, T> {
    Map::new(
        |x: N| tags.contains_key(x),
        |x: N|
            if tags[x] == from {
                into
            } else {
                tags[x]
            },
    )
}

/// Inserting an undirected edge between two vertices of the graph keeps the
/// vertices, and adds the two arcs of the edge to the adjacencies.
pub proof fn lemma_edge_inserted<N>(adj: Adjacency<N>, a: N, b: N, w: i32)
    requires
        adj.has_node(a),
        adj.has_node(b),
    ensures
        adj.with_edge(a, b, w).nodes() == adj.nodes(),
        forall|x: N, y: N| #[trigger]
            adj.with_edge(a, b, w).has_arc(x, y) <==> adj.has_arc(x, y) || (x == a && y == b) || (x
                == b && y == a),
{
    let middle = adj.with_arc(a, b, w);
    let after = adj.with_edge(a, b, w);
    assert(middle.nodes() =~= adj.nodes());
    assert(after.nodes() =~= adj.nodes());
    assert forall|x: N, y: N| #[trigger]
        after.has_arc(x, y) <==> adj.has_arc(x, y) || (x == a && y == b) || (x == b && y == a) by {
        lemma_arc_inserted(adj, a, b, w, x, y);
        lemma_arc_inserted(middle, b, a, w, x, y);
    }
}

/// A walk stays a walk when an undirected edge is inserted.
pub proof fn lemma_walk_stays<N>(adj: Adjacency<N>, a: N, b: N, w: i32, p: Seq<N>)
    requires
        adj.has_node(a),
        adj.has_node(b),
        adj.is_walk(p),
    ensures
        adj.with_edge(a, b, w).is_walk(p),
{
    lemma_edge_inserted(adj, a, b, w);
    let after = adj.with_edge(a, b, w);
    assert forall|i: int| 0 <= i < p.len() implies after.has_node(#[trigger] p[i]) by {
        assert(adj.has_node(p[i]));
        assert(after.nodes().contains(p[i]));
    }
    assert forall|i: int| 0 <= i < p.len() - 1 implies after.has_arc(#[trigger] p[i], p[i + 1]) by {
        assert(adj.has_arc(p[i], p[i + 1]));
    }
}

/// Where every arc joins vertices of the same tag, so does every walk.
pub proof fn lemma_tags_along_walk<N, T>(adj: Adjacency<N>, tags: Map<N, T>, p: Seq<N>)
    requires
        tags.dom() == adj.nodes(),
        forall|x: N, y: N|
            tags.contains_key(x) && tags.contains_key(y) && #[trigger] adj.has_arc(x, y) ==> tags[x]
                == tags[y],
        adj.is_walk(p),
    ensures
        tags[p[0]] == tags[p[p.len() - 1]],
    decreases p.len(),
{
    if p.len() > 1 {
        let shorter = p.drop_last();
        assert forall|i: int| 0 <= i < shorter.len() implies
            adj.has_node(#[trigger] shorter[i]) by {
            assert(shorter[i] == p[i]);
        }
        assert forall|i: int| 0 <= i < shorter.len() - 1 implies adj.has_arc(
            #[trigger] shorter[i],
            shorter[i + 1],
        ) by {
            assert(shorter[i] == p[i]);
            assert(shorter[i + 1] == p[i + 1]);
        }
        lemma_tags_along_walk(adj, tags, shorter);
        let n = p.len() - 2;
        assert(adj.has_arc(p[n], p[n + 1]));
        assert(adj.has_node(p[n]) && adj.has_node(p[n + 1]));
        assert(adj.nodes().contains(p[n]) && adj.nodes().contains(p[n + 1]));
    }
}

/// In a graph without arcs, tags that differ from vertex to vertex tell the
/// components apart.
pub proof fn lemma_tags_start<N, T>(nodes: Set<N>, tags: Map<N, T>)
    requires
        tags.dom() == nodes,
        forall|x: N, y: N|
            tags.contains_key(x) && tags.contains_key(y) && x != y ==> #[trigger] tags[x]
                != #[trigger] tags[y],
    ensures
        tags_match(bare(nodes), tags),
{
    let adj = bare(nodes);
    assert(adj.nodes() =~= nodes);
    assert forall|x: N, y: N| tags.contains_key(x) && tags.contains_key(y) implies
        (tags[x] == tags[y]
        <==> #[trigger] connected(adj, x, y)) by {
        if x == y {
            assert(adj.is_walk_between(seq![x], x, y));
        }
        if connected(adj, x, y) {
            let p = choose|p: Seq<N>| #[trigger] adj.is_walk_between(p, x, y);
            if p.len() > 1 {
                assert(adj.has_arc(p[0int], p[0int + 1]));
                let arcs = adj.out_arcs(p[0]);
                assert(arcs.len() == 0);
            }
        }
    }
}

/// Joining two components by an edge, and giving one the tag of the other,
/// keeps the tags telling the components apart.
pub proof fn lemma_join<N, T>(adj: Adjacency<N>, tags: Map<N, T>, a: N, b: N, w: i32)
    requires
        tags_match(adj, tags),
        adj.has_node(a),
        adj.has_node(b),
        tags[a] != tags[b],
    ensures
        tags_match(adj.with_edge(a, b, w), retagged(tags, tags[b], tags[a])),
        !connected(adj, a, b),
{
    let after = adj.with_edge(a, b, w);
    let tags1 = retagged(tags, tags[b], tags[a]);
    lemma_edge_inserted(adj, a, b, w);
    assert(tags1.dom() =~= tags.dom());
    assert(adj.nodes().contains(a) && adj.nodes().contains(b));
    assert(tags.contains_key(a) && tags.contains_key(b));
    assert(connected(adj, a, b) <==> tags[a] == tags[b]);
    assert forall|x: N, y: N| tags1.contains_key(x) && tags1.contains_key(y) implies (tags1[x]
        == tags1[y] <==> #[trigger] connected(after, x, y)) by {
        assert(tags.contains_key(x) && tags.contains_key(y));
        if connected(after, x, y) {
            let p = choose|p: Seq<N>| #[trigger] after.is_walk_between(p, x, y);
            assert forall|u: N, v: N|
                tags1.contains_key(u) && tags1.contains_key(v) && #[trigger] after.has_arc(
                    u,
                    v,
                ) implies tags1[u] == tags1[v] by {
                if adj.has_arc(u, v) {
                    assert(adj.is_walk_between(seq![u, v], u, v)) by {
                        let q = seq![u, v];
                        assert(adj.has_node(u) && adj.has_node(v)) by {
                            assert(tags.dom().contains(u) && tags.dom().contains(v));
                        }
                        assert forall|i: int| 0 <= i < q.len() - 1 implies adj.has_arc(
                            #[trigger] q[i],
                            q[i + 1],
                        ) by {}
                    }
                    assert(connected(adj, u, v));
                }
            }
            lemma_tags_along_walk(after, tags1, p);
        }
        if tags1[x] == tags1[y] {
            if tags[x] == tags[y] {
                assert(connected(adj, x, y));
                let p = choose|p: Seq<N>| #[trigger] adj.is_walk_between(p, x, y);
                lemma_walk_stays(adj, a, b, w, p);
                assert(after.is_walk_between(p, x, y));
            } else if tags[x] == tags[b] {
                // from x to b, over the new edge to a, on to y
                assert(tags[y] == tags[a]);
                assert(connected(adj, x, b));
                assert(connected(adj, a, y));
                let p = choose|p: Seq<N>| #[trigger] adj.is_walk_between(p, x, b);
                let q = choose|q: Seq<N>| #[trigger] adj.is_walk_between(q, a, y);
                lemma_walk_stays(adj, a, b, w, p);
                lemma_walk_stays(adj, a, b, w, q);
                lemma_bridge(after, p, q);
            } else {
                assert(tags[x] == tags[a]);
                assert(tags[y] == tags[b]);
                assert(connected(adj, x, a));
                assert(connected(adj, b, y));
                let p = choose|p: Seq<N>| #[trigger] adj.is_walk_between(p, x, a);
                let q = choose|q: Seq<N>| #[trigger] adj.is_walk_between(q, b, y);
                lemma_walk_stays(adj, a, b, w, p);
                lemma_walk_stays(adj, a, b, w, q);
                lemma_bridge(after, p, q);
            }
        }
    }
}

/// Two walks, joined by an arc from the end of the first to the start of the
/// second, make one walk.
pub proof fn lemma_bridge<N>(adj: Adjacency<N>, p: Seq<N>, q: Seq<N>)
    requires
        adj.is_walk(p),
        adj.is_walk(q),
        adj.has_arc(p[p.len() - 1], q[0]),
    ensures
        connected(adj, p[0], q[q.len() - 1]),
{
    let r = p + q;
    assert forall|i: int| 0 <= i < r.len() implies adj.has_node(#[trigger] r[i]) by {
        if i < p.len() {
            assert(r[i] == p[i]);
        } else {
            assert(r[i] == q[i - p.len()]);
        }
    }
    assert forall|i: int| 0 <= i < r.len() - 1 implies adj.has_arc(#[trigger] r[i], r[i + 1]) by {
        if i < p.len() - 1 {
            assert(r[i] == p[i]);
            assert(r[i + 1] == p[i + 1]);
        } else if i == p.len() - 1 {
            assert(r[i] == p[i]);
            assert(r[i + 1] == q[0]);
        } else {
            let k = i - p.len();
            assert(r[i] == q[k]);
            assert(r[i + 1] == q[k + 1]);
        }
    }
    assert(adj.is_walk_between(r, p[0], q[q.len() - 1]));
}

/// What holds between two rounds of the algorithm: the picks so far are
/// edges between vertices of the graph, taken in the order of their weights,
/// none heavier than the current weight `floor`; no edge that has not been
/// examined is lighter than `floor`; the tags tell the components of the
/// forest apart; each pick joined two components; and each edge examined and
/// not picked closes a cycle with picks that are no heavier.
pub open spec fn forest_inv<N>(
    nodes: Set<N>,
    edges: Seq<(N, N, i32)>,
    picks: Seq<usize>,
    examined: Seq<usize>,
    tags: Map<N, usize>,
    floor: int,
) -> bool {
    &&& is_choice(nodes, edges, picks)
    &&& is_selection(examined, edges.len())
    &&& tags.dom() == nodes
    &&& forall|j: int| 0 <= j < picks.len() ==> examined.contains(#[trigger] picks[j])
    &&& tags_match(forest_at(nodes, taken(edges, picks), picks.len() as int), tags)
    &&& forall|j: int| 0 <= j < picks.len() ==> edges[(#[trigger] picks[j]) as int].2 <= floor
    &&& forall|i: int, j: int|
        0 <= i < j < picks.len() ==> edges[(#[trigger] picks[i]) as int].2 <= edges[(
        #[trigger] picks[j]) as int].2
    &&& forall|i: usize|
        i < edges.len() && !(#[trigger] examined.contains(i)) ==> floor <= edges[i as int].2
    &&& forall|j: int|
        0 <= j < picks.len() ==> !connected(
            forest_at(nodes, taken(edges, picks), j),
            edges[(#[trigger] picks[j]) as int].0,
            edges[picks[j] as int].1,
        )
    &&& forall|i: usize|
        i < edges.len() && #[trigger] examined.contains(i) && has_ends(nodes, edges[i as int])
            && !picks.contains(i) ==> exists|k: int|
            closes_cycle(nodes, edges, picks, i as int, k)
}

/// The invariant holds when the run starts: nothing is examined or picked,
/// and every vertex is a component of its own.
pub proof fn lemma_forest_starts<N>(
    nodes: Set<N>,
    edges: Seq<(N, N, i32)>,
    tags: Map<N, usize>,
    floor: int,
)
    requires
        tags.dom() == nodes,
        forall|x: N, y: N|
            tags.contains_key(x) && tags.contains_key(y) && x != y ==> #[trigger] tags[x]
                != #[trigger] tags[y],
        forall|i: int| 0 <= i < edges.len() ==> floor <= (#[trigger] edges[i]).2,
    ensures
        forest_inv(nodes, edges, Seq::<usize>::empty(), Seq::<usize>::empty(), tags, floor),
{
    let picks = Seq::<usize>::empty();
    lemma_tags_start(nodes, tags);
    assert(taken(edges, picks).take(0) =~= Seq::<(N, N, i32)>::empty());
}

/// The edges that a choice takes lie between vertices of the graph.
pub proof fn lemma_choice_within<N>(nodes: Set<N>, edges: Seq<(N, N, i32)>, picks: Seq<usize>)
    requires
        is_choice(nodes, edges, picks),
    ensures
        forall|j: int|
            0 <= j < taken(edges, picks).len() ==> has_ends(
                nodes,
                #[trigger] taken(edges, picks)[j],
            ),
{
    assert forall|j: int| 0 <= j < taken(edges, picks).len() implies has_ends(
        nodes,
        #[trigger] taken(edges, picks)[j],
    ) by {
        assert(has_ends(nodes, edges[picks[j] as int]));
    }
}

/// The forest has the vertices it started with.
pub proof fn lemma_forest_nodes<N>(nodes: Set<N>, chosen: Seq<(N, N, i32)>, k: int)
    requires
        0 <= k <= chosen.len(),
        forall|j: int| 0 <= j < chosen.len() ==> has_ends(nodes, #[trigger] chosen[j]),
    ensures
        forest_at(nodes, chosen, k).nodes() == nodes,
    decreases k,
{
    if k == 0 {
        assert(chosen.take(0) =~= Seq::<(N, N, i32)>::empty());
        assert(bare(nodes).nodes() =~= nodes);
    } else {
        lemma_forest_nodes(nodes, chosen, k - 1);
        assert(chosen.take(k).drop_last() =~= chosen.take(k - 1));
        assert(chosen.take(k).last() == chosen[k - 1]);
        let before = forest_at(nodes, chosen, k - 1);
        assert(has_ends(nodes, chosen[k - 1]));
        assert(before.has_node(chosen[k - 1].0) && before.has_node(chosen[k - 1].1));
        lemma_edge_inserted(before, chosen[k - 1].0, chosen[k - 1].1, chosen[k - 1].2);
    }
}

/// What is connected in the forest stays connected as the forest grows.
pub proof fn lemma_forest_grows<N>(
    nodes: Set<N>,
    chosen: Seq<(N, N, i32)>,
    k: int,
    later: int,
    x: N,
    y: N,
)
    requires
        0 <= k <= later <= chosen.len(),
        forall|j: int| 0 <= j < chosen.len() ==> has_ends(nodes, #[trigger] chosen[j]),
        connected(forest_at(nodes, chosen, k), x, y),
    ensures
        connected(forest_at(nodes, chosen, later), x, y),
    decreases later - k,
{
    if k < later {
        lemma_forest_grows(nodes, chosen, k, later - 1, x, y);
        let before = forest_at(nodes, chosen, later - 1);
        let p = choose|p: Seq<N>| #[trigger] before.is_walk_between(p, x, y);
        lemma_forest_nodes(nodes, chosen, later - 1);
        assert(chosen.take(later).drop_last() =~= chosen.take(later - 1));
        assert(chosen.take(later).last() == chosen[later - 1]);
        assert(has_ends(nodes, chosen[later - 1]));
        assert(before.has_node(chosen[later - 1].0) && before.has_node(chosen[later - 1].1));
        lemma_walk_stays(before, chosen[later - 1].0, chosen[later - 1].1, chosen[later - 1].2, p);
        assert(forest_at(nodes, chosen, later).is_walk_between(p, x, y));
    }
}

/// An edge that joins two components is picked.
pub proof fn lemma_forest_accepts<N>(
    nodes: Set<N>,
    edges: Seq<(N, N, i32)>,
    picks: Seq<usize>,
    examined: Seq<usize>,
    tags: Map<N, usize>,
    floor: int,
    i: usize,
)
    requires
        forest_inv(nodes, edges, picks, examined, tags, floor),
        i < edges.len(),
        !examined.contains(i),
        edges[i as int].2 == floor,
        has_ends(nodes, edges[i as int]),
        tags[edges[i as int].0] != tags[edges[i as int].1],
    ensures
        forest_inv(
            nodes,
            edges,
            picks.push(i),
            examined.push(i),
            retagged(tags, tags[edges[i as int].1], tags[edges[i as int].0]),
            floor,
        ),
{
    let a = edges[i as int].0;
    let b = edges[i as int].1;
    let picks1 = picks.push(i);
    let chosen = taken(edges, picks);
    let chosen1 = taken(edges, picks1);
    let examined1 = examined.push(i);
    let tags1 = retagged(tags, tags[b], tags[a]);
    let n = picks.len() as int;
    assert(!picks.contains(i)) by {
        if picks.contains(i) {
            let j = choose|j: int| 0 <= j < picks.len() && picks[j] == i;
            assert(examined.contains(picks[j]));
        }
    }
    lemma_selection_push(picks, edges.len(), i);
    lemma_selection_push(examined, edges.len(), i);
    assert(chosen1 =~= chosen.push(edges[i as int]));
    assert(tags1.dom() =~= nodes);
    assert forall|j: int| 0 <= j < picks1.len() implies examined1.contains(
        #[trigger] picks1[j],
    ) by {
        if j < n {
            assert(examined.contains(picks[j]));
        }
    }
    assert forall|j: int| 0 <= j < picks1.len() implies has_ends(
        nodes,
        edges[(#[trigger] picks1[j]) as int],
    ) by {
        if j < n {
            assert(picks1[j] == picks[j]);
        }
    }
    // the forest before and after
    let forest = forest_at(nodes, chosen, n);
    assert(chosen.take(n) =~= chosen);
    assert(chosen1.take(n + 1) =~= chosen1);
    assert(chosen1.drop_last() =~= chosen);
    assert(forest_at(nodes, chosen1, n + 1) == forest.with_edge(a, b, edges[i as int].2));
    lemma_choice_within(nodes, edges, picks);
    lemma_forest_nodes(nodes, chosen, n);
    assert(forest.has_node(a) && forest.has_node(b));
    lemma_join(forest, tags, a, b, edges[i as int].2);
    assert forall|j: int| 0 <= j < picks1.len() implies edges[(#[trigger] picks1[j]) as int].2
        <= floor by {
        if j < n {
            assert(picks1[j] == picks[j]);
        }
    }
    assert forall|x: int, y: int| 0 <= x < y < picks1.len() implies edges[(
    #[trigger] picks1[x]) as int].2 <= edges[(#[trigger] picks1[y]) as int].2 by {
        assert(picks1[x] == picks[x]);
        if y < n {
            assert(picks1[y] == picks[y]);
        }
    }
    assert forall|j: int| 0 <= j < picks1.len() implies !connected(
        forest_at(nodes, chosen1, j),
        edges[(#[trigger] picks1[j]) as int].0,
        edges[picks1[j] as int].1,
    ) by {
        assert(chosen1.take(j) =~= chosen.take(j));
        if j < n {
            assert(picks1[j] == picks[j]);
        }
    }
    assert forall|x: usize|
        x < edges.len() && #[trigger] examined1.contains(x) && has_ends(nodes, edges[x as int])
            && !picks1.contains(x) implies exists|k: int|
        closes_cycle(nodes, edges, picks1, x as int, k) by {
        assert(examined.contains(x));
        assert(!picks.contains(x));
        let k = choose|k: int| closes_cycle(nodes, edges, picks, x as int, k);
        assert(chosen1.take(k) =~= chosen.take(k));
        assert forall|j: int| 0 <= j < k implies edges[(#[trigger] picks1[j]) as int].2
            <= edges[x as int].2 by {
            assert(picks1[j] == picks[j]);
        }
        assert(closes_cycle(nodes, edges, picks1, x as int, k));
    }
}

/// An edge that does not join two components of the graph is passed over.
pub proof fn lemma_forest_rejects<N>(
    nodes: Set<N>,
    edges: Seq<(N, N, i32)>,
    picks: Seq<usize>,
    examined: Seq<usize>,
    tags: Map<N, usize>,
    floor: int,
    i: usize,
)
    requires
        forest_inv(nodes, edges, picks, examined, tags, floor),
        i < edges.len(),
        !examined.contains(i),
        edges[i as int].2 == floor,
        has_ends(nodes, edges[i as int]) ==> tags[edges[i as int].0] == tags[edges[i as int].1],
    ensures
        forest_inv(nodes, edges, picks, examined.push(i), tags, floor),
{
    let examined1 = examined.push(i);
    lemma_selection_push(examined, edges.len(), i);
    assert forall|j: int| 0 <= j < picks.len() implies examined1.contains(#[trigger] picks[j]) by {
        assert(examined.contains(picks[j]));
    }
    assert forall|x: usize|
        x < edges.len() && #[trigger] examined1.contains(x) && has_ends(nodes, edges[x as int])
            && !picks.contains(x) implies exists|k: int|
        closes_cycle(nodes, edges, picks, x as int, k) by {
        if x == i {
            let a = edges[i as int].0;
            let b = edges[i as int].1;
            assert(tags.contains_key(a) && tags.contains_key(b));
            assert(connected(forest_at(nodes, taken(edges, picks), picks.len() as int), a, b));
            assert(closes_cycle(nodes, edges, picks, x as int, picks.len() as int));
        } else {
            assert(examined.contains(x));
        }
    }
}

/// When no edge of the current weight is left, the current weight moves on
/// to a weight that no remaining edge is lighter than.
pub proof fn lemma_forest_advances<N>(
    nodes: Set<N>,
    edges: Seq<(N, N, i32)>,
    picks: Seq<usize>,
    examined: Seq<usize>,
    tags: Map<N, usize>,
    floor: int,
    next: int,
)
    requires
        forest_inv(nodes, edges, picks, examined, tags, floor),
        floor <= next,
        forall|i: usize|
            i < edges.len() && !(#[trigger] examined.contains(i)) ==> next <= edges[i as int].2,
    ensures
        forest_inv(nodes, edges, picks, examined, tags, next),
{
}

/// A picked edge has its ends connected in the forest.
pub proof fn lemma_pick_connects<N>(nodes: Set<N>, chosen: Seq<(N, N, i32)>, j: int)
    requires
        0 <= j < chosen.len(),
        forall|j: int| 0 <= j < chosen.len() ==> has_ends(nodes, #[trigger] chosen[j]),
    ensures
        connected(forest_at(nodes, chosen, chosen.len() as int), chosen[j].0, chosen[j].1),
{
    let a = chosen[j].0;
    let b = chosen[j].1;
    let before = forest_at(nodes, chosen, j);
    let after = forest_at(nodes, chosen, j + 1);
    assert(chosen.take(j + 1).drop_last() =~= chosen.take(j));
    assert(chosen.take(j + 1).last() == chosen[j]);
    lemma_forest_nodes(nodes, chosen, j);
    assert(has_ends(nodes, chosen[j]));
    assert(before.has_node(a) && before.has_node(b));
    lemma_edge_inserted(before, a, b, chosen[j].2);
    assert(after.has_arc(a, b));
    lemma_forest_nodes(nodes, chosen, j + 1);
    assert(after.is_walk_between(seq![a, b], a, b)) by {
        let q = seq![a, b];
        assert(after.has_node(a) && after.has_node(b));
        assert forall|x: int| 0 <= x < q.len() - 1 implies
            after.has_arc(#[trigger] q[x], q[x + 1]) by {}
    }
    lemma_forest_grows(nodes, chosen, j + 1, chosen.len() as int, a, b);
}

/// In a greedy forest, every edge between two vertices of the graph has its
/// ends connected.
pub proof fn lemma_forest_spans<N>(
    nodes: Set<N>,
    edges: Seq<(N, N, i32)>,
    picks: Seq<usize>,
    i: usize,
)
    requires
        is_greedy_forest(nodes, edges, picks),
        i < edges.len(),
        has_ends(nodes, edges[i as int]),
    ensures
        connected(
            forest_at(nodes, taken(edges, picks), picks.len() as int),
            edges[i as int].0,
            edges[i as int].1,
        ),
{
    let a = edges[i as int].0;
    let b = edges[i as int].1;
    let chosen = taken(edges, picks);
    lemma_choice_within(nodes, edges, picks);
    if picks.contains(i) {
        let j = choose|j: int| 0 <= j < picks.len() && picks[j] == i;
        assert(chosen[j].0 == a && chosen[j].1 == b);
        lemma_pick_connects(nodes, chosen, j);
    } else {
        let k = choose|k: int| closes_cycle(nodes, edges, picks, i as int, k);
        lemma_forest_grows(nodes, chosen, k, chosen.len() as int, a, b);
    }
}

/// At the end of the run, when every edge has been examined or all vertices
/// are connected, the picks are what was promised.
pub proof fn lemma_forest_done<N>(
    nodes: Set<N>,
    edges: Seq<(N, N, i32)>,
    picks: Seq<usize>,
    examined: Seq<usize>,
    tags: Map<N, usize>,
    floor: int,
)
    requires
        forest_inv(nodes, edges, picks, examined, tags, floor),
        (forall|i: usize| i < edges.len() ==> #[trigger] examined.contains(i)) || (forall|
            x: N,
            y: N,
        |
            tags.contains_key(x) && tags.contains_key(y) ==> #[trigger] tags[x]
                == #[trigger] tags[y]),
    ensures
        is_greedy_forest(nodes, edges, picks),
{
    let n = picks.len() as int;
    assert forall|i: usize|
        i < edges.len() && has_ends(nodes, edges[i as int]) && !(#[trigger] picks.contains(
            i,
        )) implies exists|k: int| closes_cycle(nodes, edges, picks, i as int, k) by {
        if !examined.contains(i) {
            let a = edges[i as int].0;
            let b = edges[i as int].1;
            assert(tags.contains_key(a) && tags.contains_key(b));
            assert(tags[a] == tags[b]);
            assert(connected(forest_at(nodes, taken(edges, picks), n), a, b));
            assert(closes_cycle(nodes, edges, picks, i as int, n));
        }
    }
}

/// The tags that the first `n` elements of the partition carry.
pub open spec fn tags_in(parts: Map<usize, usize>, n: nat) -> Set<usize> {
    Set::new(|t: usize| exists|j: usize| j < n && #[trigger] parts[j] == t)
}

/// A new element under a fresh tag adds one tag.
pub proof fn lemma_tags_fresh(parts: Map<usize, usize>, parts1: Map<usize, usize>, n: usize)
    requires
        tags_in(parts, n as nat).finite(),
        tags_in(parts, n as nat).len() == n,
        n < usize::MAX,
        forall|j: usize| j < n ==> #[trigger] parts1[j] == parts[j],
        forall|j: usize| j < n ==> #[trigger] parts[j] != parts1[n],
    ensures
        tags_in(parts1, (n + 1) as nat).finite(),
        tags_in(parts1, (n + 1) as nat).len() == n + 1,
{
    let before = tags_in(parts, n as nat);
    let after = tags_in(parts1, (n + 1) as nat);
    assert(after =~= before.insert(parts1[n])) by {
        assert forall|t: usize| after.contains(t) <==> before.insert(parts1[n]).contains(t) by {
            if after.contains(t) {
                let j = choose|j: usize| j < n + 1 && #[trigger] parts1[j] == t;
                if j < n {
                    assert(parts[j] == t);
                }
            }
            if before.contains(t) {
                let j = choose|j: usize| j < n && #[trigger] parts[j] == t;
                assert(parts1[j] == t);
            }
            if t == parts1[n] {
                assert(parts1[n] == t);
            }
        }
    }
    assert(!before.contains(parts1[n])) by {
        if before.contains(parts1[n]) {
            let j = choose|j: usize| j < n && #[trigger] parts[j] == parts1[n];
            assert(parts[j] != parts1[n]);
        }
    }
}

/// When one subset absorbs another, one tag goes.
pub proof fn lemma_tags_merge(parts: Map<usize, usize>, n: nat, a: usize, b: usize)
    requires
        tags_in(parts, n).finite(),
        forall|j: usize| j < n ==> parts.contains_key(j),
        a < n,
        b < n,
        parts[a] != parts[b],
    ensures
        tags_in(merged(parts, parts[b], parts[a]), n).finite(),
        tags_in(merged(parts, parts[b], parts[a]), n).len() == tags_in(parts, n).len() - 1,
{
    let parts1 = merged(parts, parts[b], parts[a]);
    let before = tags_in(parts, n);
    let after = tags_in(parts1, n);
    assert(after =~= before.remove(parts[b])) by {
        assert forall|t: usize| after.contains(t) <==> before.remove(parts[b]).contains(t) by {
            if after.contains(t) {
                let j = choose|j: usize| j < n && #[trigger] parts1[j] == t;
                assert(parts.contains_key(j));
                if parts[j] == parts[b] {
                    assert(parts[a] == t);
                } else {
                    assert(parts[j] == t);
                }
            }
            if before.contains(t) && t != parts[b] {
                let j = choose|j: usize| j < n && #[trigger] parts[j] == t;
                assert(parts.contains_key(j));
                assert(parts1[j] == t);
            }
        }
    }
    assert(before.contains(parts[b])) by {
        assert(parts[b] == parts[b]);
    }
}

/// Where the elements carry one tag only, any two carry the same.
pub proof fn lemma_tags_single(parts: Map<usize, usize>, n: nat, i: usize, j: usize)
    requires
        tags_in(parts, n).finite(),
        tags_in(parts, n).len() <= 1,
        i < n,
        j < n,
    ensures
        parts[i] == parts[j],
{
    let all = tags_in(parts, n);
    assert(all.contains(parts[i])) by {
        assert(parts[i] == parts[i]);
    }
    assert(all.contains(parts[j])) by {
        assert(parts[j] == parts[j]);
    }
    if parts[i] != parts[j] {
        let less = all.remove(parts[i]);
        assert(less.contains(parts[j]));
        assert(less.len() == all.len() - 1);
        assert(less.len() == 0);
        less.lemma_len0_is_empty();
    }
}

} // verus!

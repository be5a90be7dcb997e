//! Facts about walks and their weights.

use vstd::prelude::*;
use crate::model::{lemma_enters_first, lemma_first_weight, Adjacency};
use crate::path::PathModel;

verus! {

/// `p` describes a walk from `s` to `t` that passes no vertex twice, and its
/// distance is the weight of that walk.
pub open spec fn is_path<N>(adj: Adjacency<N>, s: N, t: N, p: PathModel<N>) -> bool {
    &&& adj.is_walk_between(p.path, s, t)
    &&& adj.walk_weight(p.path) == p.distance
    &&& p.path.no_duplicates()
}

/// No walk from `s` to `t` weighs less than `d`.
pub open spec fn is_lower_bound<N>(adj: Adjacency<N>, s: N, t: N, d: int) -> bool {
    forall|q: Seq<N>| #[trigger] adj.is_walk_between(q, s, t) ==> d <= adj.walk_weight(q)
}

/// `p` describes a shortest walk from `s` to `t`.
pub open spec fn is_shortest_path<N>(adj: Adjacency<N>, s: N, t: N, p: PathModel<N>) -> bool {
    &&& is_path(adj, s, t, p)
    &&& is_lower_bound(adj, s, t, p.distance as int)
}

/// `t` cannot be reached from `s` at a distance below the "infinite"
/// sentinel `i32::MAX`; in particular when no walk leads from `s` to `t`.
pub open spec fn is_unreachable<N>(adj: Adjacency<N>, s: N, t: N) -> bool {
    is_lower_bound(adj, s, t, i32::MAX as int)
}

/// Some walk leads from `x` to `y`.
pub open spec fn connected<N>(adj: Adjacency<N>, x: N, y: N) -> bool {
    exists|p: Seq<N>| #[trigger] adj.is_walk_between(p, x, y)
}

/// The walk `q` starts at `s` and passes no vertex twice, and an arc leads
/// from its end to the vertex `v`.
pub open spec fn leads_on<N>(adj: Adjacency<N>, s: N, q: Seq<N>, v: N) -> bool {
    &&& adj.is_walk_between(q, s, q[q.len() - 1])
    &&& q.no_duplicates()
    &&& adj.has_node(v)
    &&& adj.has_arc(q[q.len() - 1], v)
}

/// Seen from `s`, the weights of the graph are tame: along a walk from `s`
/// that passes no vertex twice, and with one more arc added to it, the sum
/// of the weights stays below the "infinite" sentinel `i32::MAX` and not
/// below `i32::MIN`.
pub open spec fn is_tame<N>(adj: Adjacency<N>, s: N) -> bool {
    forall|q: Seq<N>, v: N| #[trigger]
        leads_on(adj, s, q, v) ==> i32::MIN <= adj.walk_weight(q) + adj.arc_weight(
            q[q.len() - 1],
            v,
        ) < i32::MAX
}

/// Seen from every vertex, the weights of the graph are tame.
pub open spec fn is_tame_throughout<N>(adj: Adjacency<N>) -> bool {
    forall|s: N| adj.has_node(s) ==> #[trigger] is_tame(adj, s)
}

/// No walk leads from some vertex of the graph to some other.
pub open spec fn is_split<N>(adj: Adjacency<N>) -> bool {
    exists|a: N, b: N| adj.has_node(a) && adj.has_node(b) && !#[trigger] connected(adj, a, b)
}

/// Some walk from `a` to `b` weighs at most `d`.
pub open spec fn is_within<N>(adj: Adjacency<N>, a: N, b: N, d: int) -> bool {
    exists|q: Seq<N>| #[trigger] adj.is_walk_between(q, a, b) && adj.walk_weight(q) <= d
}

/// `p` describes a walk between two vertices of the graph, of a weight below
/// the "infinite" sentinel.
pub open spec fn is_some_path<N>(adj: Adjacency<N>, p: PathModel<N>) -> bool {
    &&& p.path.len() > 0
    &&& is_path(adj, p.path[0], p.path[p.path.len() - 1], p)
    &&& p.distance < i32::MAX
}

/// `p` describes a longest shortest walk: it is a shortest walk between its
/// ends, and every vertex can be reached from every other at no greater
/// distance.
pub open spec fn is_diameter<N>(adj: Adjacency<N>, p: PathModel<N>) -> bool {
    &&& is_some_path(adj, p)
    &&& is_lower_bound(adj, p.path[0], p.path[p.path.len() - 1], p.distance as int)
    &&& forall|a: N, b: N|
        adj.has_node(a) && adj.has_node(b) ==> #[trigger] is_within(adj, a, b, p.distance as int)
}

/// Some vertex cannot be reached from some other below the distance
/// `i32::MAX`.
pub open spec fn is_disconnected<N>(adj: Adjacency<N>) -> bool {
    exists|a: N, b: N| adj.has_node(a) && adj.has_node(b) && #[trigger] is_unreachable(adj, a, b)
}

/// In a graph without negative weights, the weight between two adjacent
/// vertices is not negative.
pub proof fn lemma_arc_weight_nonnegative<N>(adj: Adjacency<N>, u: N, v: N)
    requires
        adj.nonnegative(),
        adj.has_arc(u, v),
    ensures
        adj.arc_weight(u, v) >= 0,
{
    let arcs = adj.out_arcs(u);
    let i = lemma_enters_first(arcs, v);
    lemma_first_weight(arcs, v, i);
    assert(adj.arcs[u][i].1 >= 0);
}

/// A nonempty prefix of a walk is a walk.
pub proof fn lemma_walk_prefix<N>(adj: Adjacency<N>, p: Seq<N>, k: int)
    requires
        adj.is_walk(p),
        1 <= k <= p.len(),
    ensures
        adj.is_walk(p.take(k)),
{
    let q = p.take(k);
    assert forall|i: int| 0 <= i < q.len() implies adj.has_node(#[trigger] q[i]) by {
        assert(q[i] == p[i]);
    }
    assert forall|i: int| 0 <= i < q.len() - 1 implies adj.has_arc(#[trigger] q[i], q[i + 1]) by {
        assert(q[i] == p[i]);
        assert(q[i + 1] == p[i + 1]);
    }
}

/// Extending a walk by one vertex adds the weight of the arc that is
/// followed.
pub proof fn lemma_walk_weight_step<N>(adj: Adjacency<N>, p: Seq<N>, k: int)
    requires
        1 <= k < p.len(),
    ensures
        adj.walk_weight(p.take(k + 1)) == adj.walk_weight(p.take(k)) + adj.arc_weight(
            p[k - 1],
            p[k],
        ),
{
    let q = p.take(k + 1);
    assert(q.drop_last() =~= p.take(k));
    assert(q[q.len() - 2] == p[k - 1]);
    assert(q[q.len() - 1] == p[k]);
}

/// A walk extended by an arc is a walk, heavier by the weight of the arc.
pub proof fn lemma_walk_push<N>(adj: Adjacency<N>, p: Seq<N>, v: N)
    requires
        adj.is_walk(p),
        adj.has_node(v),
        adj.has_arc(p[p.len() - 1], v),
    ensures
        adj.is_walk(p.push(v)),
        adj.walk_weight(p.push(v)) == adj.walk_weight(p) + adj.arc_weight(p[p.len() - 1], v),
{
    let q = p.push(v);
    assert(q.drop_last() =~= p);
    assert forall|i: int| 0 <= i < q.len() implies adj.has_node(#[trigger] q[i]) by {
        if i < p.len() {
            assert(q[i] == p[i]);
        }
    }
    assert forall|i: int| 0 <= i < q.len() - 1 implies adj.has_arc(#[trigger] q[i], q[i + 1]) by {
        if i < p.len() - 1 {
            assert(q[i] == p[i]);
            assert(q[i + 1] == p[i + 1]);
        }
    }
}

/// In a graph without negative weights, a walk weighs at least as much as
/// each of its prefixes, and no walk has a negative weight.
pub proof fn lemma_walk_weight_monotone<N>(adj: Adjacency<N>, p: Seq<N>, k: int)
    requires
        adj.nonnegative(),
        adj.is_walk(p),
        1 <= k <= p.len(),
    ensures
        0 <= adj.walk_weight(p.take(k)) <= adj.walk_weight(p),
    decreases p.len(),
{
    if p.len() == 1 {
        assert(p.take(k) =~= p);
    } else {
        let shorter = p.drop_last();
        assert(shorter =~= p.take(p.len() - 1));
        lemma_walk_prefix(adj, p, p.len() - 1);
        lemma_arc_weight_nonnegative(adj, p[p.len() - 2], p[p.len() - 1]);
        if k == p.len() {
            assert(p.take(k) =~= p);
            lemma_walk_weight_monotone(adj, shorter, k - 1);
            assert(shorter.take(k - 1) =~= shorter);
        } else {
            lemma_walk_weight_monotone(adj, shorter, k);
            assert(shorter.take(k) =~= p.take(k));
        }
    }
}

} // verus!

//! What Dijkstra's algorithm reaches: why, where the weights are tame, it
//! finds a walk to every vertex to which one leads.

use vstd::prelude::*;
use crate::dijkstra::{improves, is_first_min, relax_through, relaxed, visit, Records};
use crate::dijkstra_run::{
    lemma_chain, lemma_relax_through, lemma_source_first, lemma_visit, link_ok, mid_inv, run_inv,
    sound,
};
use crate::model::Adjacency;
use crate::walks::{connected, is_tame, leads_on};

verus! {

/// Once a vertex at infinite distance has been visited, every vertex that is
/// still unvisited is at infinite distance.
pub open spec fn calm<N>(m: Records<N>) -> bool {
    forall|u: N, v: N|
        m.contains_key(u) && m.contains_key(v) && m[u].visited && !m[v].visited && (
        #[trigger] m[u]).distance == i32::MAX ==> (#[trigger] m[v]).distance == i32::MAX
}

/// Every vertex that an arc from `u` enters has been reached.
pub open spec fn reach<N>(adj: Adjacency<N>, m: Records<N>, u: N) -> bool {
    forall|v: N| m.contains_key(v) && #[trigger] adj.has_arc(u, v) ==> m[v].distance < i32::MAX
}

/// Every vertex that one of the first `k` arcs from `u` enters has been
/// reached.
pub open spec fn reach_upto<N>(adj: Adjacency<N>, m: Records<N>, u: N, k: int) -> bool {
    forall|i: int|
        0 <= i < k && m.contains_key(#[trigger] adj.neighbours(u)[i]) ==> m[adj.neighbours(
            u,
        )[i]].distance < i32::MAX
}

/// What holds of the reached vertices between two rounds: where the weights
/// are tame, whatever an arc from a visited and reached vertex enters has
/// been reached.
pub open spec fn reach_inv<N>(adj: Adjacency<N>, s: N, m: Records<N>) -> bool {
    &&& calm(m)
    &&& is_tame(adj, s) ==> forall|u: N|
        m.contains_key(u) && m[u].visited && m[u].distance < i32::MAX ==> #[trigger] reach(
            adj,
            m,
            u,
        )
}

/// What holds of the reached vertices while the arcs of the vertex `x`,
/// visited last, are relaxed, after the first `k` of them.
pub open spec fn reach_mid<N>(adj: Adjacency<N>, s: N, m: Records<N>, x: N, k: int) -> bool {
    &&& calm(m)
    &&& forall|u: N|
        m.contains_key(u) && m[u].visited && (#[trigger] m[u]).distance == i32::MAX
            ==> m[x].distance == i32::MAX
    &&& is_tame(adj, s) ==> {
        &&& forall|u: N|
            m.contains_key(u) && m[u].visited && m[u].distance < i32::MAX && u != x
                ==> #[trigger] reach(adj, m, u)
        &&& m[x].distance < i32::MAX ==> reach_upto(adj, m, x, k)
    }
}

/// Nothing is to be shown of the reached vertices when the run starts.
pub proof fn lemma_reach_starts<N>(adj: Adjacency<N>, s: N, m: Records<N>)
    requires
        forall|v: N| m.contains_key(v) ==> !(#[trigger] m[v]).visited,
    ensures
        reach_inv(adj, s, m),
{
}

/// Visiting the unvisited vertex of least distance establishes what holds
/// of the reached vertices while its arcs are relaxed.
proof fn lemma_reach_visit<N>(
    adj: Adjacency<N>,
    s: N,
    m: Records<N>,
    todo: Seq<N>,
    order: Seq<N>,
    i: int,
)
    requires
        sound(adj, s, m, todo, order),
        reach_inv(adj, s, m),
        is_first_min(todo, m, i),
    ensures
        reach_mid(adj, s, visit(m, todo[i]), todo[i], 0),
{
    let x = todo[i];
    let m1 = visit(m, x);
    lemma_source_first(adj, s, m, todo, order, i);
    assert forall|u: N, v: N|
        m1.contains_key(u) && m1.contains_key(v) && m1[u].visited && !m1[v].visited && (
        #[trigger] m1[u]).distance == i32::MAX implies (#[trigger] m1[v]).distance
        == i32::MAX by {
        if u == x {
            assert(todo.contains(v));
            let j = choose|j: int| 0 <= j < todo.len() && todo[j] == v;
            assert(m[todo[i]].distance <= m[todo[j]].distance);
        } else {
            assert(m[u].distance == i32::MAX);
            assert(m[v].distance == i32::MAX);
        }
    }
    assert forall|u: N|
        m1.contains_key(u) && m1[u].visited && (#[trigger] m1[u]).distance
            == i32::MAX implies m1[x].distance == i32::MAX by {
        if u != x {
            assert(m[u].distance == i32::MAX);
            assert(m[x].distance == i32::MAX);
        }
    }
    if is_tame(adj, s) {
        assert forall|u: N|
            m1.contains_key(u) && m1[u].visited && m1[u].distance < i32::MAX && u
                != x implies #[trigger] reach(adj, m1, u) by {
            assert(reach(adj, m, u));
            assert forall|v: N| m1.contains_key(v) && #[trigger] adj.has_arc(u, v) implies
                m1[v].distance
                < i32::MAX by {
                assert(m[v].distance < i32::MAX);
            }
        }
    }
}

/// Relaxing the next arc of the vertex visited last keeps what holds of the
/// reached vertices.
proof fn lemma_reach_relax_one<N>(
    adj: Adjacency<N>,
    s: N,
    m: Records<N>,
    todo: Seq<N>,
    order: Seq<N>,
    x: N,
    k: int,
)
    requires
        mid_inv(adj, s, m, todo, order, x, k),
        reach_mid(adj, s, m, x, k),
        0 <= k < adj.degree(x),
    ensures
        reach_mid(
            adj,
            s,
            relaxed(m, x, adj.neighbours(x)[k], adj.arc_weight(x, adj.neighbours(x)[k])),
            x,
            k + 1,
        ),
{
    let v = adj.neighbours(x)[k];
    let w = adj.arc_weight(x, v);
    let m1 = relaxed(m, x, v, w);
    assert(adj.out_arcs(x)[k].0 == v);
    assert(adj.has_arc(x, v));
    assert forall|u: N| m1.contains_key(u) implies (#[trigger] m1[u]).distance <= m[u].distance
        && m1[u].visited == m[u].visited && m.contains_key(u) by {}
    assert forall|u: N, y: N|
        m1.contains_key(u) && m1.contains_key(y) && m1[u].visited && !m1[y].visited && (
        #[trigger] m1[u]).distance == i32::MAX implies (#[trigger] m1[y]).distance
        == i32::MAX by {
        assert(m[u].distance == i32::MAX);
        assert(m[x].distance == i32::MAX);
        assert(m[y].distance == i32::MAX);
    }
    assert forall|u: N|
        m1.contains_key(u) && m1[u].visited && (#[trigger] m1[u]).distance
            == i32::MAX implies m1[x].distance == i32::MAX by {
        assert(m[u].distance == i32::MAX);
    }
    if is_tame(adj, s) {
        assert forall|u: N|
            m1.contains_key(u) && m1[u].visited && m1[u].distance < i32::MAX && u
                != x implies #[trigger] reach(adj, m1, u) by {
            assert(reach(adj, m, u));
            assert forall|y: N| m1.contains_key(y) && #[trigger] adj.has_arc(u, y) implies
                m1[y].distance
                < i32::MAX by {
                assert(m[y].distance < i32::MAX);
            }
        }
        if m1[x].distance < i32::MAX {
            assert forall|i: int|
                0 <= i < k + 1 && m1.contains_key(#[trigger] adj.neighbours(x)[i]) implies
                    m1[adj.neighbours(
                x,
            )[i]].distance < i32::MAX by {
                let y = adj.neighbours(x)[i];
                if i < k {
                    assert(m[y].distance < i32::MAX);
                } else if !improves(m, x, v, w) {
                    if m[v].visited {
                        if m[v].distance == i32::MAX {
                            assert(m[x].distance == i32::MAX);
                        }
                    } else {
                        // the walk to `x`, and the arc from `x` to `v`
                        assert(order.contains(x));
                        let j = choose|j: int| 0 <= j < order.len() && order[j] == x;
                        if x != s {
                            assert(link_ok(adj, m, x));
                        }
                        lemma_chain(adj, s, m, todo, order, j, order.len());
                        let q = crate::dijkstra::chain(m, s, x, order.len())->Ok_0;
                        assert(adj.has_node(v)) by {
                            assert(m.dom().contains(v));
                        }
                        assert(leads_on(adj, s, q, v));
                    }
                }
            }
        }
    }
}

/// Relaxing the first `k` arcs of the vertex visited last keeps what holds
/// of the reached vertices.
proof fn lemma_reach_relax_through<N>(
    adj: Adjacency<N>,
    s: N,
    m: Records<N>,
    todo: Seq<N>,
    order: Seq<N>,
    x: N,
    k: nat,
)
    requires
        mid_inv(adj, s, m, todo, order, x, 0),
        reach_mid(adj, s, m, x, 0),
        k <= adj.degree(x),
    ensures
        reach_mid(adj, s, relax_through(m, adj, x, k), x, k as int),
    decreases k,
{
    if k > 0 {
        lemma_reach_relax_through(adj, s, m, todo, order, x, (k - 1) as nat);
        lemma_relax_through(adj, s, m, todo, order, x, (k - 1) as nat);
        lemma_reach_relax_one(
            adj,
            s,
            relax_through(m, adj, x, (k - 1) as nat),
            todo,
            order,
            x,
            k - 1,
        );
    }
}

/// One round of the main loop keeps what holds of the reached vertices.
pub proof fn lemma_reach_round<N>(
    adj: Adjacency<N>,
    s: N,
    m: Records<N>,
    todo: Seq<N>,
    order: Seq<N>,
    i: int,
)
    requires
        run_inv(adj, s, m, todo, order),
        reach_inv(adj, s, m),
        is_first_min(todo, m, i),
    ensures
        reach_inv(adj, s, relax_through(visit(m, todo[i]), adj, todo[i], adj.degree(todo[i]))),
{
    let x = todo[i];
    let m1 = visit(m, x);
    let m2 = relax_through(m1, adj, x, adj.degree(x));
    lemma_visit(adj, s, m, todo, order, i);
    lemma_reach_visit(adj, s, m, todo, order, i);
    lemma_reach_relax_through(adj, s, m1, todo.remove(i), order.push(x), x, adj.degree(x));
    if is_tame(adj, s) {
        assert forall|u: N|
            m2.contains_key(u) && m2[u].visited && m2[u].distance < i32::MAX implies
                #[trigger] reach(
            adj,
            m2,
            u,
        ) by {
            if u == x {
                assert forall|v: N| m2.contains_key(v) && #[trigger] adj.has_arc(x, v) implies
                    m2[v].distance
                    < i32::MAX by {
                    let arcs = adj.out_arcs(x);
                    let a = choose|a: int| 0 <= a < arcs.len() && (#[trigger] arcs[a]).0 == v;
                    assert(adj.neighbours(x)[a] == v);
                }
            }
        }
    }
}

/// Where the weights are tame, no walk leads from the source to a visited
/// vertex at infinite distance.
pub proof fn lemma_reach_result<N>(
    adj: Adjacency<N>,
    s: N,
    m: Records<N>,
    todo: Seq<N>,
    order: Seq<N>,
    t: N,
)
    requires
        sound(adj, s, m, todo, order),
        reach_inv(adj, s, m),
        is_tame(adj, s),
        m.contains_key(t),
        m[t].visited,
        m[t].distance == i32::MAX,
    ensures
        !connected(adj, s, t),
{
    if connected(adj, s, t) {
        let p = choose|p: Seq<N>| #[trigger] adj.is_walk_between(p, s, t);
        let k = lemma_first_unreached(m, p, p.len() - 1);
        let a = p[k - 1];
        let b = p[k];
        assert(adj.has_node(a) && adj.has_node(b));
        assert(m.dom().contains(a) && m.dom().contains(b));
        assert(adj.has_arc(a, b));
        if !m[a].visited {
            assert(m[t].distance == i32::MAX);
            assert(m[a].distance == i32::MAX);
        }
        assert(reach(adj, m, a));
    }
}

/// On a walk that starts at a reached vertex and ends at one that has not
/// been reached, some vertex that has not been reached follows a reached
/// one.
proof fn lemma_first_unreached<N>(m: Records<N>, p: Seq<N>, n: int) -> (k: int)
    requires
        0 <= n < p.len(),
        m[p[0]].distance < i32::MAX,
        m[p[n]].distance == i32::MAX,
    ensures
        1 <= k <= n,
        m[p[k - 1]].distance < i32::MAX,
        m[p[k]].distance == i32::MAX,
    decreases n,
{
    if m[p[n - 1]].distance < i32::MAX {
        n
    } else {
        lemma_first_unreached(m, p, n - 1)
    }
}

} // verus!

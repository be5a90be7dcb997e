//! What holds throughout a run of Dijkstra's algorithm, and what follows
//! from it for the result.

use vstd::prelude::*;
use crate::dijkstra::{
    backtracked, chain, improves, initial_records, is_first_min, relax_through, relaxed, visit,
    Records,
};
use crate::error::GraphError;
use crate::model::Adjacency;
use crate::path::PathModel;
use crate::walks::{
    is_lower_bound, is_path, is_shortest_path, is_unreachable, lemma_arc_weight_nonnegative,
    lemma_walk_prefix, lemma_walk_push, lemma_walk_weight_monotone, lemma_walk_weight_step,
};

verus! {

/// The record of `v` is justified by its predecessor: without one, `v` is at
/// infinite distance; with one, the predecessor is final, an arc leads from
/// it to `v`, and the distance of `v` is the distance of the predecessor
/// plus the weight of that arc.
pub open spec fn link_ok<N>(adj: Adjacency<N>, m: Records<N>, v: N) -> bool {
    match m[v].predecessor {
        None => m[v].distance == i32::MAX,
        Some(u) => {
            &&& m.contains_key(u)
            &&& m[u].visited
            &&& m[u].distance < i32::MAX
            &&& adj.has_arc(u, v)
            &&& m[v].distance == m[u].distance + adj.arc_weight(u, v)
            &&& m[v].distance < i32::MAX
        },
    }
}

/// The predecessor of the `j`-th visited vertex was visited before it.
pub open spec fn ordered_at<N>(m: Records<N>, order: Seq<N>, j: int) -> bool {
    match m[order[j]].predecessor {
        Some(u) => order.take(j).contains(u),
        None => true,
    }
}

/// The bookkeeping is sound, whatever the weights: there is one record for
/// each vertex; `todo` lists the unvisited vertices and `order` the visited
/// ones, in the order of their visits; the source is at distance 0; and every
/// other record is justified by its predecessor.
pub open spec fn sound<N>(
    adj: Adjacency<N>,
    s: N,
    m: Records<N>,
    todo: Seq<N>,
    order: Seq<N>,
) -> bool {
    &&& m.dom() == adj.nodes()
    &&& m.dom().finite()
    &&& m.contains_key(s)
    &&& m[s].distance == 0
    &&& m[s].predecessor is None
    &&& todo.no_duplicates()
    &&& order.no_duplicates()
    &&& forall|v: N| #[trigger] todo.contains(v) <==> m.contains_key(v) && !m[v].visited
    &&& forall|v: N| #[trigger] order.contains(v) <==> m.contains_key(v) && m[v].visited
    &&& !m[s].visited ==> forall|v: N|
        m.contains_key(v) && v != s ==> (#[trigger] m[v]).distance == i32::MAX
    &&& forall|v: N| m.contains_key(v) && v != s ==> #[trigger] link_ok(adj, m, v)
    &&& forall|j: int| 0 <= j < order.len() ==> #[trigger] ordered_at(m, order, j)
}

/// The recorded distance of `v` is at most what the arc from `u` offers.
pub open spec fn bounded_from<N>(adj: Adjacency<N>, m: Records<N>, u: N, v: N) -> bool {
    m[v].distance <= m[u].distance + adj.arc_weight(u, v)
}

/// Every arc that leaves `u` for an unvisited vertex has been relaxed.
pub open spec fn settled<N>(adj: Adjacency<N>, m: Records<N>, u: N) -> bool {
    forall|v: N|
        m.contains_key(v) && !m[v].visited && adj.has_arc(u, v) ==> #[trigger] bounded_from(
            adj,
            m,
            u,
            v,
        )
}

/// The first `k` arcs that leave `u` have been relaxed.
pub open spec fn settled_upto<N>(adj: Adjacency<N>, m: Records<N>, u: N, k: int) -> bool {
    forall|i: int|
        0 <= i < k && m.contains_key(#[trigger] adj.neighbours(u)[i]) && !m[adj.neighbours(
            u,
        )[i]].visited ==> bounded_from(adj, m, u, adj.neighbours(u)[i])
}

/// What holds of the distances when no weight is negative: no distance is
/// negative, the distance of a visited vertex is a lower bound for every walk
/// from the source to it, and no unvisited vertex is nearer than a visited
/// one.
pub open spec fn optimal<N>(adj: Adjacency<N>, s: N, m: Records<N>) -> bool {
    &&& forall|v: N| m.contains_key(v) ==> 0 <= (#[trigger] m[v]).distance
    &&& forall|v: N|
        m.contains_key(v) && m[v].visited ==> #[trigger] is_lower_bound(
            adj,
            s,
            v,
            m[v].distance as int,
        )
    &&& forall|u: N, v: N|
        m.contains_key(u) && m.contains_key(v) && m[u].visited && !m[v].visited ==> (
        #[trigger] m[u]).distance <= (#[trigger] m[v]).distance
}

/// The invariant of the main loop.
pub open spec fn run_inv<N>(
    adj: Adjacency<N>,
    s: N,
    m: Records<N>,
    todo: Seq<N>,
    order: Seq<N>,
) -> bool {
    &&& sound(adj, s, m, todo, order)
    &&& adj.nonnegative() ==> {
        &&& optimal(adj, s, m)
        &&& forall|u: N| m.contains_key(u) && m[u].visited ==> #[trigger] settled(adj, m, u)
    }
}

/// What holds while the arcs of the vertex `x`, visited last, are relaxed,
/// after the first `k` of them.
pub open spec fn mid_inv<N>(
    adj: Adjacency<N>,
    s: N,
    m: Records<N>,
    todo: Seq<N>,
    order: Seq<N>,
    x: N,
    k: int,
) -> bool {
    &&& sound(adj, s, m, todo, order)
    &&& m[s].visited
    &&& m.contains_key(x)
    &&& m[x].visited
    &&& adj.nonnegative() ==> {
        &&& optimal(adj, s, m)
        &&& forall|u: N|
            m.contains_key(u) && m[u].visited && u != x ==> #[trigger] settled(adj, m, u)
        &&& forall|u: N|
            m.contains_key(u) && m[u].visited ==> (#[trigger] m[u]).distance <= m[x].distance
        &&& settled_upto(adj, m, x, k)
    }
}

/// The invariant holds when the run starts.
pub proof fn lemma_run_starts<N>(adj: Adjacency<N>, s: N, todo: Seq<N>)
    requires
        adj.has_node(s),
        todo.no_duplicates(),
        todo.to_set() == adj.nodes(),
    ensures
        run_inv(adj, s, initial_records(adj.nodes(), s), todo, Seq::<N>::empty()),
{
    let m = initial_records(adj.nodes(), s);
    let order = Seq::<N>::empty();
    assert(m.dom() =~= adj.nodes());
    vstd::seq_lib::seq_to_set_is_finite(todo);
    assert forall|v: N| #[trigger] todo.contains(v) <==> m.contains_key(v) && !m[v].visited by {
        assert(todo.to_set().contains(v) <==> todo.contains(v));
    }
    assert forall|v: N| m.contains_key(v) && v != s implies #[trigger] link_ok(adj, m, v) by {}
    if adj.nonnegative() {
        assert forall|u: N| m.contains_key(u) && m[u].visited implies #[trigger] settled(
            adj,
            m,
            u,
        ) by {}
    }
}

/// Unless the vertex picked first is the source itself, the source has been
/// visited.
pub proof fn lemma_source_first<N>(
    adj: Adjacency<N>,
    s: N,
    m: Records<N>,
    todo: Seq<N>,
    order: Seq<N>,
    i: int,
)
    requires
        sound(adj, s, m, todo, order),
        is_first_min(todo, m, i),
    ensures
        todo[i] != s ==> m[s].visited,
        m.contains_key(todo[i]),
        !m[todo[i]].visited,
{
    let x = todo[i];
    assert(todo.contains(x));
    if x != s && !m[s].visited {
        assert(todo.contains(s));
        let j = choose|j: int| 0 <= j < todo.len() && todo[j] == s;
        assert(m[todo[i]].distance <= m[todo[j]].distance);
        assert(m[x].distance == i32::MAX);
    }
}

/// On a walk that starts at a visited vertex and ends at an unvisited one,
/// some unvisited vertex follows a visited one.
proof fn lemma_first_unvisited<N>(m: Records<N>, p: Seq<N>, n: int) -> (k: int)
    requires
        0 <= n < p.len(),
        m[p[0]].visited,
        !m[p[n]].visited,
    ensures
        1 <= k <= n,
        m[p[k - 1]].visited,
        !m[p[k]].visited,
    decreases n,
{
    if m[p[n - 1]].visited {
        n
    } else {
        lemma_first_unvisited(m, p, n - 1)
    }
}

/// When no weight is negative, the distance of the unvisited vertex of least
/// distance is a lower bound for every walk from the source to it.
proof fn lemma_lower_bound_at_visit<N>(
    adj: Adjacency<N>,
    s: N,
    m: Records<N>,
    todo: Seq<N>,
    order: Seq<N>,
    i: int,
)
    requires
        run_inv(adj, s, m, todo, order),
        adj.nonnegative(),
        is_first_min(todo, m, i),
    ensures
        is_lower_bound(adj, s, todo[i], m[todo[i]].distance as int),
{
    let x = todo[i];
    lemma_source_first(adj, s, m, todo, order, i);
    assert forall|q: Seq<N>| #[trigger] adj.is_walk_between(q, s, x) implies m[x].distance
        <= adj.walk_weight(q) by {
        if x == s {
            lemma_walk_weight_monotone(adj, q, q.len() as int);
            assert(q.take(q.len() as int) =~= q);
        } else {
            let n = q.len() - 1;
            let k = lemma_first_unvisited(m, q, n);
            let a = q[k - 1];
            let b = q[k];
            assert(adj.has_node(a) && adj.has_node(b));
            assert(adj.has_arc(a, b));
            assert(m.contains_key(a) && m.contains_key(b));
            // the walk up to `a` weighs at least the distance of `a`
            lemma_walk_prefix(adj, q, k);
            assert(adj.is_walk_between(q.take(k), s, a));
            assert(is_lower_bound(adj, s, a, m[a].distance as int));
            assert(m[a].distance <= adj.walk_weight(q.take(k)));
            // the arc from `a` to `b` has been relaxed
            assert(settled(adj, m, a));
            assert(bounded_from(adj, m, a, b));
            lemma_walk_weight_step(adj, q, k);
            // `x` is no farther than `b`
            assert(todo.contains(b));
            let j = choose|j: int| 0 <= j < todo.len() && todo[j] == b;
            assert(m[todo[i]].distance <= m[todo[j]].distance);
            // the rest of the walk weighs nothing negative
            lemma_walk_weight_monotone(adj, q, k + 1);
        }
    }
}

/// Removing position `i` from a list without duplicates removes exactly the
/// vertex at that position.
proof fn lemma_remove_unique<N>(todo: Seq<N>, i: int)
    requires
        todo.no_duplicates(),
        0 <= i < todo.len(),
    ensures
        todo.remove(i).no_duplicates(),
        forall|v: N| #[trigger] todo.remove(i).contains(v) <==> todo.contains(v) && v != todo[i],
{
    let rest = todo.remove(i);
    assert forall|a: int, b: int| 0 <= a < rest.len() && 0 <= b < rest.len() && a != b implies
        rest[a]
        != rest[b] by {
        let a2 = if a < i { a } else { a + 1 };
        let b2 = if b < i { b } else { b + 1 };
        assert(rest[a] == todo[a2]);
        assert(rest[b] == todo[b2]);
    }
    assert forall|v: N| #[trigger] rest.contains(v) <==> todo.contains(v) && v != todo[i] by {
        if rest.contains(v) {
            let a = choose|a: int| 0 <= a < rest.len() && rest[a] == v;
            let a2 = if a < i { a } else { a + 1 };
            assert(rest[a] == todo[a2]);
            assert(todo[a2] == v);
        }
        if todo.contains(v) && v != todo[i] {
            let a2 = choose|a2: int| 0 <= a2 < todo.len() && todo[a2] == v;
            let a = if a2 < i { a2 } else { a2 - 1 };
            assert(rest[a] == todo[a2]);
        }
    }
}

/// Visiting the unvisited vertex of least distance keeps the bookkeeping
/// sound.
proof fn lemma_visit_sound<N>(
    adj: Adjacency<N>,
    s: N,
    m: Records<N>,
    todo: Seq<N>,
    order: Seq<N>,
    i: int,
)
    requires
        sound(adj, s, m, todo, order),
        is_first_min(todo, m, i),
    ensures
        sound(adj, s, visit(m, todo[i]), todo.remove(i), order.push(todo[i])),
        visit(m, todo[i])[s].visited,
{
    let x = todo[i];
    let m1 = visit(m, x);
    let todo1 = todo.remove(i);
    let order1 = order.push(x);
    lemma_source_first(adj, s, m, todo, order, i);
    lemma_remove_unique(todo, i);
    assert(m1.dom() =~= m.dom());
    assert(!order.contains(x));
    assert(order1.no_duplicates()) by {
        assert forall|a: int, b: int|
            0 <= a < order1.len() && 0 <= b < order1.len() && a != b implies order1[a]
            != order1[b] by {
            if a < order.len() {
                assert(order.contains(order[a]));
            }
            if b < order.len() {
                assert(order.contains(order[b]));
            }
        }
    }
    assert forall|v: N| #[trigger] todo1.contains(v) <==> m1.contains_key(v) && !m1[v].visited by {
        assert(todo.contains(v) <==> m.contains_key(v) && !m[v].visited);
    }
    assert forall|v: N| #[trigger] order1.contains(v) <==> m1.contains_key(v) && m1[v].visited by {
        assert(order.contains(v) <==> m.contains_key(v) && m[v].visited);
        if order.contains(v) {
            let a = choose|a: int| 0 <= a < order.len() && order[a] == v;
            assert(order1[a] == v);
        }
        if v == x {
            assert(order1[order.len() as int] == x);
        }
        if order1.contains(v) && v != x {
            let a = choose|a: int| 0 <= a < order1.len() && order1[a] == v;
            assert(order[a] == v);
        }
    }
    assert forall|v: N| m1.contains_key(v) && v != s implies #[trigger] link_ok(adj, m1, v) by {
        assert(link_ok(adj, m, v));
    }
    assert forall|j: int| 0 <= j < order1.len() implies #[trigger] ordered_at(m1, order1, j) by {
        if j < order.len() {
            assert(ordered_at(m, order, j));
            assert(order.contains(order[j]));
            assert(order1.take(j) =~= order.take(j));
        } else {
            assert(order1.take(j) =~= order);
            if x != s {
                assert(link_ok(adj, m, x));
            }
        }
    }
}

/// Visiting the unvisited vertex of least distance establishes what holds
/// while its arcs are relaxed.
pub proof fn lemma_visit<N>(
    adj: Adjacency<N>,
    s: N,
    m: Records<N>,
    todo: Seq<N>,
    order: Seq<N>,
    i: int,
)
    requires
        run_inv(adj, s, m, todo, order),
        is_first_min(todo, m, i),
    ensures
        mid_inv(adj, s, visit(m, todo[i]), todo.remove(i), order.push(todo[i]), todo[i], 0),
{
    let x = todo[i];
    let m1 = visit(m, x);
    lemma_visit_sound(adj, s, m, todo, order, i);
    lemma_source_first(adj, s, m, todo, order, i);
    if adj.nonnegative() {
        lemma_lower_bound_at_visit(adj, s, m, todo, order, i);
        assert forall|v: N| m1.contains_key(v) && m1[v].visited implies #[trigger] is_lower_bound(
            adj,
            s,
            v,
            m1[v].distance as int,
        ) by {
            if v != x {
                assert(is_lower_bound(adj, s, v, m[v].distance as int));
            }
        }
        assert forall|u: N, v: N|
            m1.contains_key(u) && m1.contains_key(v) && m1[u].visited && !m1[v].visited implies (
            #[trigger] m1[u]).distance <= (#[trigger] m1[v]).distance by {
            if u == x {
                assert(todo.contains(v));
                let j = choose|j: int| 0 <= j < todo.len() && todo[j] == v;
                assert(m[todo[i]].distance <= m[todo[j]].distance);
            } else {
                assert(m[u].distance <= m[v].distance);
            }
        }
        assert forall|v: N| m1.contains_key(v) implies 0 <= (#[trigger] m1[v]).distance by {
            assert(0 <= m[v].distance);
        }
        assert forall|u: N| m1.contains_key(u) && m1[u].visited && u != x implies
            #[trigger] settled(
            adj,
            m1,
            u,
        ) by {
            assert(settled(adj, m, u));
            assert forall|v: N|
                m1.contains_key(v) && !m1[v].visited && adj.has_arc(u, v) implies
                    #[trigger] bounded_from(
                adj,
                m1,
                u,
                v,
            ) by {
                assert(bounded_from(adj, m, u, v));
            }
        }
        assert forall|u: N| m1.contains_key(u) && m1[u].visited implies (#[trigger] m1[u]).distance
            <= m1[x].distance by {
            if u != x {
                assert(m[u].distance <= m[x].distance);
            }
        }
    }
}

/// Relaxing the next arc of the vertex visited last keeps what holds while
/// its arcs are relaxed.
proof fn lemma_relax_one<N>(
    adj: Adjacency<N>,
    s: N,
    m: Records<N>,
    todo: Seq<N>,
    order: Seq<N>,
    x: N,
    k: int,
)
    requires
        mid_inv(adj, s, m, todo, order, x, k),
        0 <= k < adj.degree(x),
    ensures
        mid_inv(
            adj,
            s,
            relaxed(m, x, adj.neighbours(x)[k], adj.arc_weight(x, adj.neighbours(x)[k])),
            todo,
            order,
            x,
            k + 1,
        ),
{
    let v = adj.neighbours(x)[k];
    let w = adj.arc_weight(x, v);
    let m1 = relaxed(m, x, v, w);
    assert(adj.out_arcs(x)[k].0 == v);
    assert(adj.has_arc(x, v));
    if adj.nonnegative() {
        lemma_arc_weight_nonnegative(adj, x, v);
    }
    if improves(m, x, v, w) {
        assert(v != s);
        assert(v != x);
        assert(m1.dom() =~= m.dom());
        assert forall|u: N| #[trigger] todo.contains(u)
            <==> m1.contains_key(u) && !m1[u].visited by {
            assert(todo.contains(u) <==> m.contains_key(u) && !m[u].visited);
        }
        assert forall|u: N| #[trigger] order.contains(u)
            <==> m1.contains_key(u) && m1[u].visited by {
            assert(order.contains(u) <==> m.contains_key(u) && m[u].visited);
        }
        assert forall|u: N| m1.contains_key(u) && u != s implies #[trigger] link_ok(adj, m1, u) by {
            if u != v {
                assert(link_ok(adj, m, u));
            }
        }
        assert forall|j: int| 0 <= j < order.len() implies #[trigger] ordered_at(m1, order, j) by {
            assert(ordered_at(m, order, j));
            assert(order.contains(order[j]));
        }
        if adj.nonnegative() {
            assert(0 <= m[x].distance);
            assert forall|u: N| m1.contains_key(u) implies 0 <= (#[trigger] m1[u]).distance by {
                assert(0 <= m[u].distance);
            }
            assert forall|u: N| m1.contains_key(u) && m1[u].visited implies
                #[trigger] is_lower_bound(
                adj,
                s,
                u,
                m1[u].distance as int,
            ) by {
                assert(is_lower_bound(adj, s, u, m[u].distance as int));
            }
            assert forall|a: N, b: N|
                m1.contains_key(a) && m1.contains_key(b) && m1[a].visited && !m1[b].visited implies
                    (
                #[trigger] m1[a]).distance <= (#[trigger] m1[b]).distance by {
                assert(m[a].distance <= m[b].distance);
                assert(m[a].distance <= m[x].distance);
            }
            assert forall|u: N| m1.contains_key(u) && m1[u].visited && u != x implies
                #[trigger] settled(
                adj,
                m1,
                u,
            ) by {
                assert(settled(adj, m, u));
                assert forall|b: N|
                    m1.contains_key(b) && !m1[b].visited && adj.has_arc(u, b) implies
                        #[trigger] bounded_from(
                    adj,
                    m1,
                    u,
                    b,
                ) by {
                    assert(bounded_from(adj, m, u, b));
                }
            }
            assert forall|u: N| m1.contains_key(u) && m1[u].visited implies (
            #[trigger] m1[u]).distance <= m1[x].distance by {
                assert(m[u].distance <= m[x].distance);
            }
            assert forall|i: int|
                0 <= i < k + 1 && m1.contains_key(#[trigger] adj.neighbours(x)[i])
                    && !m1[adj.neighbours(x)[i]].visited implies bounded_from(
                adj,
                m1,
                x,
                adj.neighbours(x)[i],
            ) by {
                let b = adj.neighbours(x)[i];
                if b != v {
                    assert(bounded_from(adj, m, x, b));
                }
            }
        }
    } else {
        if adj.nonnegative() {
            assert(0 <= m[x].distance);
            assert forall|i: int|
                0 <= i < k + 1 && m1.contains_key(#[trigger] adj.neighbours(x)[i])
                    && !m1[adj.neighbours(x)[i]].visited implies bounded_from(
                adj,
                m1,
                x,
                adj.neighbours(x)[i],
            ) by {
                let b = adj.neighbours(x)[i];
                if i < k {
                    assert(bounded_from(adj, m, x, b));
                } else {
                    assert(m[v].distance <= i32::MAX);
                }
            }
        }
    }
}

/// Relaxing the first `k` arcs of the vertex visited last keeps what holds
/// while its arcs are relaxed.
pub proof fn lemma_relax_through<N>(
    adj: Adjacency<N>,
    s: N,
    m: Records<N>,
    todo: Seq<N>,
    order: Seq<N>,
    x: N,
    k: nat,
)
    requires
        mid_inv(adj, s, m, todo, order, x, 0),
        k <= adj.degree(x),
    ensures
        mid_inv(adj, s, relax_through(m, adj, x, k), todo, order, x, k as int),
    decreases k,
{
    if k > 0 {
        lemma_relax_through(adj, s, m, todo, order, x, (k - 1) as nat);
        lemma_relax_one(adj, s, relax_through(m, adj, x, (k - 1) as nat), todo, order, x, k - 1);
    }
}

/// Once every arc of the vertex visited last is relaxed, the invariant of
/// the main loop holds again.
pub proof fn lemma_relaxed_all<N>(
    adj: Adjacency<N>,
    s: N,
    m: Records<N>,
    todo: Seq<N>,
    order: Seq<N>,
    x: N,
)
    requires
        mid_inv(adj, s, m, todo, order, x, adj.degree(x) as int),
    ensures
        run_inv(adj, s, m, todo, order),
{
    if adj.nonnegative() {
        assert forall|u: N| m.contains_key(u) && m[u].visited implies
            #[trigger] settled(adj, m, u) by {
            if u == x {
                assert forall|v: N|
                    m.contains_key(v) && !m[v].visited && adj.has_arc(x, v) implies
                        #[trigger] bounded_from(
                    adj,
                    m,
                    x,
                    v,
                ) by {
                    let arcs = adj.out_arcs(x);
                    let i = choose|i: int| 0 <= i < arcs.len() && (#[trigger] arcs[i]).0 == v;
                    assert(adj.neighbours(x)[i] == v);
                }
            }
        }
    }
}

/// One round of the main loop keeps its invariant: the unvisited vertex of
/// least distance is visited, and all its arcs are relaxed.
pub proof fn lemma_round<N>(
    adj: Adjacency<N>,
    s: N,
    m: Records<N>,
    todo: Seq<N>,
    order: Seq<N>,
    i: int,
)
    requires
        run_inv(adj, s, m, todo, order),
        is_first_min(todo, m, i),
    ensures
        run_inv(
            adj,
            s,
            relax_through(visit(m, todo[i]), adj, todo[i], adj.degree(todo[i])),
            todo.remove(i),
            order.push(todo[i]),
        ),
{
    let x = todo[i];
    lemma_visit(adj, s, m, todo, order, i);
    lemma_relax_through(
        adj,
        s,
        visit(m, x),
        todo.remove(i),
        order.push(x),
        x,
        adj.degree(x),
    );
    lemma_relaxed_all(
        adj,
        s,
        relax_through(visit(m, x), adj, x, adj.degree(x)),
        todo.remove(i),
        order.push(x),
        x,
    );
}

/// The predecessor links of a visited vertex that has been reached describe
/// a walk from the source to it, whose weight is the recorded distance. The
/// walk passes no vertex twice: each of its vertices was visited before the
/// next.
pub proof fn lemma_chain<N>(
    adj: Adjacency<N>,
    s: N,
    m: Records<N>,
    todo: Seq<N>,
    order: Seq<N>,
    j: int,
    fuel: nat,
)
    requires
        sound(adj, s, m, todo, order),
        0 <= j < order.len(),
        fuel >= j,
        order[j] == s || m[order[j]].predecessor is Some,
    ensures
        chain(m, s, order[j], fuel) is Ok,
        adj.is_walk_between(chain(m, s, order[j], fuel)->Ok_0, s, order[j]),
        adj.walk_weight(chain(m, s, order[j], fuel)->Ok_0) == m[order[j]].distance,
        chain(m, s, order[j], fuel)->Ok_0.no_duplicates(),
        forall|k: int|
            0 <= k < chain(m, s, order[j], fuel)->Ok_0.len() ==> order.take(j + 1).contains(
                #[trigger] chain(m, s, order[j], fuel)->Ok_0[k],
            ),
    decreases j,
{
    let v = order[j];
    assert(order.contains(v));
    assert(order.take(j + 1)[j] == v);
    if v != s {
        let u = m[v].predecessor->0;
        assert(ordered_at(m, order, j));
        let i = choose|i: int| 0 <= i < order.take(j).len() && order.take(j)[i] == u;
        assert(order[i] == u);
        assert(link_ok(adj, m, v));
        if u != s {
            assert(link_ok(adj, m, u));
        }
        lemma_chain(adj, s, m, todo, order, i, (fuel - 1) as nat);
        let p = chain(m, s, u, (fuel - 1) as nat)->Ok_0;
        lemma_walk_push(adj, p, v);
        let q = p.push(v);
        let first = order.take(i + 1);
        assert forall|k: int| 0 <= k < q.len() implies order.take(j + 1).contains(
            #[trigger] q[k],
        ) by {
            if k < p.len() {
                assert(first.contains(p[k]));
                let at = choose|at: int| 0 <= at < first.len() && first[at] == p[k];
                assert(order.take(j + 1)[at] == p[k]);
            }
        }
        assert forall|a: int, b: int| 0 <= a < q.len() && 0 <= b < q.len() && a != b implies q[a]
            != q[b] by {
            if a < p.len() {
                assert(first.contains(p[a]));
                let at = choose|at: int| 0 <= at < first.len() && first[at] == p[a];
                assert(order[at] == p[a]);
            }
            if b < p.len() {
                assert(first.contains(p[b]));
                let at = choose|at: int| 0 <= at < first.len() && first[at] == p[b];
                assert(order[at] == p[b]);
            }
        }
    }
}

/// What backtracking yields for a visited target: the walk that was found,
/// which is a shortest one when no weight is negative; or `Unreachable`,
/// which is then the truth.
pub proof fn lemma_result<N>(
    adj: Adjacency<N>,
    s: N,
    m: Records<N>,
    todo: Seq<N>,
    order: Seq<N>,
    t: N,
)
    requires
        run_inv(adj, s, m, todo, order),
        m.contains_key(t),
        m[t].visited,
    ensures
        match backtracked(m, s, t) {
            Ok(p) => {
                &&& is_path(adj, s, t, p)
                &&& p.distance < i32::MAX
                &&& adj.nonnegative() ==> is_shortest_path(adj, s, t, p)
                &&& t == s ==> p == (PathModel { distance: 0, path: seq![s] })
            },
            Err(e) => {
                &&& e == GraphError::Unreachable
                &&& t != s
                &&& m[t].distance == i32::MAX
                &&& adj.nonnegative() ==> is_unreachable(adj, s, t)
            },
        },
{
    assert(order.contains(t));
    let j = choose|j: int| 0 <= j < order.len() && order[j] == t;
    assert(order.len() <= m.len()) by {
        order.unique_seq_to_set();
        assert(order.to_set().subset_of(m.dom())) by {
            assert forall|v: N| order.to_set().contains(v) implies m.dom().contains(v) by {
                assert(order.contains(v));
            }
        }
        vstd::set_lib::lemma_len_subset(order.to_set(), m.dom());
    }
    if adj.nonnegative() {
        assert(is_lower_bound(adj, s, t, m[t].distance as int));
    }
    if t == s || m[t].predecessor is Some {
        lemma_chain(adj, s, m, todo, order, j, m.len());
        if t != s {
            assert(link_ok(adj, m, t));
        }
    } else {
        assert(link_ok(adj, m, t));
    }
}

} // verus!

//! Why peeling assigns core numbers: what holds of the degrees throughout a
//! run of the k-core decomposition on an undirected graph.

use vstd::prelude::*;
use std::collections::HashSet;
use crate::kcore::{
    count_into, in_core, is_core_listing, is_core_number, is_core_set, is_live, is_undirected,
    list_of, multiplicity, peel_inv, Degrees, MetadataKCore,
};
use crate::model::Adjacency;

verus! {

/// The vertices that have not been peeled off.
pub open spec fn live_set<N>(adj: Adjacency<N>, order: Seq<N>) -> Set<N> {
    Set::new(|v: N| is_live(adj, order, v))
}

/// The greater of two numbers.
pub open spec fn at_least(a: int, b: int) -> int {
    if a >= b {
        a
    } else {
        b
    }
}

/// What holds of the degrees between two peelings, at the current core
/// number `c`: the degree of a remaining vertex is the number of its arcs
/// into the remaining vertices, or `c` where that number is smaller; every
/// remaining vertex belongs to the `c`-core; every higher core consists of
/// remaining vertices only; and each vertex peeled off has its degree for
/// core number.
pub open spec fn exact_inv<N>(adj: Adjacency<N>, m: Degrees<N>, order: Seq<N>, c: int) -> bool {
    &&& forall|u: N| #[trigger]
        is_live(adj, order, u) ==> count_into(adj.out_arcs(u), live_set(adj, order))
            <= m[u].degree <= at_least(c, count_into(adj.out_arcs(u), live_set(adj, order)) as int)
    &&& forall|u: N| #[trigger] is_live(adj, order, u) ==> in_core(adj, u, c)
    &&& forall|s: Set<N>, k: int| #[trigger]
        is_core_set(adj, s, k) && k > c ==> s.subset_of(live_set(adj, order))
    &&& forall|v: N| #[trigger] order.contains(v) ==> is_core_number(adj, v, m[v].degree as int)
}

/// What holds of the degrees while the neighbours of the vertex `v`, peeled
/// off last, are looked at, after the first `j` of them: the degree of a
/// remaining vertex still counts those arcs to `v` that have not been met.
pub open spec fn exact_mid<N>(
    adj: Adjacency<N>,
    m: Degrees<N>,
    order: Seq<N>,
    c: int,
    v: N,
    j: int,
) -> bool {
    &&& forall|u: N| #[trigger]
        is_live(adj, order, u) ==> count_into(adj.out_arcs(u), live_set(adj, order).insert(v))
            - multiplicity(adj.out_arcs(v).take(j), u) <= m[u].degree <= at_least(
            c,
            count_into(adj.out_arcs(u), live_set(adj, order).insert(v)) - multiplicity(
                adj.out_arcs(v).take(j),
                u,
            ),
        )
    &&& forall|u: N| #[trigger] is_live(adj, order, u) ==> in_core(adj, u, c)
    &&& forall|s: Set<N>, k: int| #[trigger]
        is_core_set(adj, s, k) && k > c ==> s.subset_of(live_set(adj, order))
    &&& forall|v: N| #[trigger] order.contains(v) ==> is_core_number(adj, v, m[v].degree as int)
}

/// No more arcs enter a set than there are arcs.
pub proof fn lemma_count_bounded<N>(arcs: Seq<(N, i32)>, s: Set<N>)
    ensures
        count_into(arcs, s) <= arcs.len(),
    decreases arcs.len(),
{
    if arcs.len() > 0 {
        lemma_count_bounded(arcs.drop_last(), s);
    }
}

/// At least as many arcs enter a set as enter a part of it.
pub proof fn lemma_count_monotone<N>(arcs: Seq<(N, i32)>, s: Set<N>, t: Set<N>)
    requires
        s.subset_of(t),
    ensures
        count_into(arcs, s) <= count_into(arcs, t),
    decreases arcs.len(),
{
    if arcs.len() > 0 {
        lemma_count_monotone(arcs.drop_last(), s, t);
    }
}

/// When every arc enters the set, all of them are counted.
pub proof fn lemma_count_all<N>(arcs: Seq<(N, i32)>, s: Set<N>)
    requires
        forall|i: int| 0 <= i < arcs.len() ==> s.contains((#[trigger] arcs[i]).0),
    ensures
        count_into(arcs, s) == arcs.len(),
    decreases arcs.len(),
{
    if arcs.len() > 0 {
        let shorter = arcs.drop_last();
        assert forall|i: int| 0 <= i < shorter.len() implies
            s.contains((#[trigger] shorter[i]).0) by {
            assert(shorter[i] == arcs[i]);
        }
        lemma_count_all(shorter, s);
        assert(s.contains(arcs[arcs.len() - 1].0));
    }
}

/// Taking a vertex out of the set takes the arcs that enter it out of the
/// count.
pub proof fn lemma_count_remove<N>(arcs: Seq<(N, i32)>, s: Set<N>, v: N)
    requires
        s.contains(v),
    ensures
        count_into(arcs, s.remove(v)) + multiplicity(arcs, v) == count_into(arcs, s),
    decreases arcs.len(),
{
    if arcs.len() > 0 {
        lemma_count_remove(arcs.drop_last(), s, v);
    }
}

/// The arcs that enter `u` among the first `j + 1` are those among the first
/// `j`, and the last one when it enters `u`.
pub proof fn lemma_multiplicity_step<N>(arcs: Seq<(N, i32)>, j: int, u: N)
    requires
        0 <= j < arcs.len(),
    ensures
        multiplicity(arcs.take(j + 1), u) == multiplicity(arcs.take(j), u) + if arcs[j].0 == u {
            1nat
        } else {
            0nat
        },
{
    let longer = arcs.take(j + 1);
    assert(longer.drop_last() =~= arcs.take(j));
    assert(longer.last() == arcs[j]);
}

/// The invariant holds when the run starts.
pub proof fn lemma_exact_starts<N>(adj: Adjacency<N>, m: Degrees<N>)
    requires
        is_undirected(adj),
        m.dom() == adj.nodes(),
        forall|v: N| #[trigger] m.contains_key(v) ==> m[v].degree == adj.degree(v),
    ensures
        exact_inv(adj, m, Seq::<N>::empty(), 0),
{
    let order = Seq::<N>::empty();
    let live = live_set(adj, order);
    assert forall|u: N| #[trigger] is_live(adj, order, u) implies count_into(adj.out_arcs(u), live)
        <= m[u].degree <= at_least(0, count_into(adj.out_arcs(u), live) as int) by {
        assert(m.contains_key(u));
        assert forall|i: int| 0 <= i < adj.out_arcs(u).len() implies live.contains(
            (#[trigger] adj.out_arcs(u)[i]).0,
        ) by {
            assert(adj.has_node(adj.out_arcs(u)[i].0));
            assert(is_live(adj, order, adj.out_arcs(u)[i].0));
        }
        lemma_count_all(adj.out_arcs(u), live);
    }
    assert forall|u: N| #[trigger] is_live(adj, order, u) implies in_core(adj, u, 0) by {
        let s = set![u];
        assert(s.contains(u));
        assert(is_core_set(adj, s, 0));
    }
    assert forall|s: Set<N>, k: int| #[trigger] is_core_set(adj, s, k) && k > 0 implies s.subset_of(
        live,
    ) by {
        assert forall|x: N| s.contains(x) implies live.contains(x) by {
            assert(is_live(adj, order, x));
        }
    }
}

/// A vertex whose degree is the current core number belongs to no higher
/// core.
proof fn lemma_not_higher<N>(adj: Adjacency<N>, m: Degrees<N>, order: Seq<N>, c: int, v: N,
    s: Set<N>, k: int)
    requires
        exact_inv(adj, m, order, c),
        is_live(adj, order, v),
        m[v].degree == c,
        is_core_set(adj, s, k),
        k > c,
    ensures
        !s.contains(v),
{
    if s.contains(v) {
        assert(s.subset_of(live_set(adj, order)));
        lemma_count_monotone(adj.out_arcs(v), s, live_set(adj, order));
    }
}

/// Peeling off a vertex whose degree is the current core number
/// establishes what holds while its neighbours are looked at.
pub proof fn lemma_exact_peel<N>(adj: Adjacency<N>, m: Degrees<N>, order: Seq<N>, c: int, v: N)
    requires
        exact_inv(adj, m, order, c),
        is_live(adj, order, v),
        m[v].degree == c,
    ensures
        exact_mid(adj, m, order.push(v), c, v, 0),
{
    let order1 = order.push(v);
    let live = live_set(adj, order);
    let live1 = live_set(adj, order1);
    assert forall|u: N| #[trigger] order1.contains(u) <==> order.contains(u) || u == v by {
        if order.contains(u) {
            let a = choose|a: int| 0 <= a < order.len() && order[a] == u;
            assert(order1[a] == u);
        }
        if u == v {
            assert(order1[order.len() as int] == v);
        }
        if order1.contains(u) && u != v {
            let a = choose|a: int| 0 <= a < order1.len() && order1[a] == u;
            assert(order[a] == u);
        }
    }
    assert(live1.insert(v) =~= live) by {
        assert forall|x: N| live1.insert(v).contains(x) <==> live.contains(x) by {
            assert(is_live(adj, order1, x) <==> is_live(adj, order, x) && x != v);
        }
    }
    assert(adj.out_arcs(v).take(0) =~= Seq::empty());
    assert forall|u: N| #[trigger] is_live(adj, order1, u) implies count_into(
        adj.out_arcs(u),
        live1.insert(v),
    ) - multiplicity(adj.out_arcs(v).take(0), u) <= m[u].degree <= at_least(
        c,
        count_into(adj.out_arcs(u), live1.insert(v)) - multiplicity(adj.out_arcs(v).take(0), u),
    ) by {
        assert(is_live(adj, order, u));
    }
    assert forall|u: N| #[trigger] is_live(adj, order1, u) implies in_core(adj, u, c) by {
        assert(is_live(adj, order, u));
    }
    assert forall|s: Set<N>, k: int| #[trigger] is_core_set(adj, s, k) && k > c implies s.subset_of(
        live1,
    ) by {
        assert(s.subset_of(live));
        lemma_not_higher(adj, m, order, c, v, s, k);
        assert forall|x: N| s.contains(x) implies live1.contains(x) by {
            assert(live.contains(x));
            assert(is_live(adj, order, x));
            assert(is_live(adj, order1, x));
        }
    }
    assert forall|x: N| #[trigger] order1.contains(x) implies is_core_number(
        adj,
        x,
        m[x].degree as int,
    ) by {
        if x == v {
            assert(in_core(adj, v, c));
            if in_core(adj, v, c + 1) {
                let s = choose|s: Set<N>| #[trigger] s.contains(v) && is_core_set(adj, s, c + 1);
                lemma_not_higher(adj, m, order, c, v, s, c + 1);
            }
        } else {
            assert(order.contains(x));
        }
    }
}

/// Looking at the next neighbour of the vertex peeled off last, and lowering
/// its degree where it is above the current core number, keeps what holds
/// while the neighbours are looked at.
pub proof fn lemma_exact_step<N>(
    adj: Adjacency<N>,
    m: Degrees<N>,
    buckets: Map<i32, HashSet<N>>,
    lists: Map<u32, Vec<N>>,
    order: Seq<N>,
    c: int,
    max: int,
    v: N,
    j: int,
    m1: Degrees<N>,
)
    requires
        peel_inv(adj, m, buckets, lists, order, c, max),
        exact_mid(adj, m, order, c, v, j),
        0 <= j < adj.out_arcs(v).len(),
        ({
            let u = adj.out_arcs(v)[j].0;
            if m.contains_key(u) && m[u].degree > c {
                m1.dom() == m.dom() && m1[u].degree == m[u].degree - 1 && forall|x: N|
                    x != u && m.contains_key(x) ==> #[trigger] m1[x] == m[x]
            } else {
                m1 == m
            }
        }),
    ensures
        exact_mid(adj, m1, order, c, v, j + 1),
{
    let u = adj.out_arcs(v)[j].0;
    let live = live_set(adj, order);
    assert forall|x: N| #[trigger] is_live(adj, order, x) implies count_into(
        adj.out_arcs(x),
        live.insert(v),
    ) - multiplicity(adj.out_arcs(v).take(j + 1), x) <= m1[x].degree <= at_least(
        c,
        count_into(adj.out_arcs(x), live.insert(v)) - multiplicity(adj.out_arcs(v).take(j + 1), x),
    ) by {
        lemma_multiplicity_step(adj.out_arcs(v), j, x);
        assert(m.contains_key(x));
        assert(c <= m[x].degree);
    }
    assert forall|x: N| #[trigger] order.contains(x) implies is_core_number(
        adj,
        x,
        m1[x].degree as int,
    ) by {
        assert(is_core_number(adj, x, m[x].degree as int));
        assert(m[x].degree <= c);
    }
}

/// Once every neighbour of the vertex peeled off last has been looked at,
/// the invariant holds again.
pub proof fn lemma_exact_settled<N>(
    adj: Adjacency<N>,
    m: Degrees<N>,
    order: Seq<N>,
    c: int,
    v: N,
)
    requires
        is_undirected(adj),
        exact_mid(adj, m, order, c, v, adj.out_arcs(v).len() as int),
        adj.has_node(v),
        order.contains(v),
    ensures
        exact_inv(adj, m, order, c),
{
    let live = live_set(adj, order);
    assert(adj.out_arcs(v).take(adj.out_arcs(v).len() as int) =~= adj.out_arcs(v));
    assert(live.insert(v).remove(v) =~= live) by {
        assert(!is_live(adj, order, v));
    }
    assert forall|u: N| #[trigger] is_live(adj, order, u) implies count_into(adj.out_arcs(u), live)
        <= m[u].degree <= at_least(c, count_into(adj.out_arcs(u), live) as int) by {
        lemma_count_remove(adj.out_arcs(u), live.insert(v), v);
        assert(multiplicity(adj.out_arcs(u), v) == multiplicity(adj.out_arcs(v), u));
    }
}

/// When no remaining vertex has the current core number for degree, the
/// invariant holds at the next core number.
pub proof fn lemma_exact_next_core<N>(
    adj: Adjacency<N>,
    m: Degrees<N>,
    order: Seq<N>,
    c: int,
)
    requires
        exact_inv(adj, m, order, c),
        forall|u: N| #[trigger] is_live(adj, order, u) ==> m[u].degree > c,
    ensures
        exact_inv(adj, m, order, c + 1),
{
    let live = live_set(adj, order);
    assert(is_core_set(adj, live, c + 1)) by {
        assert forall|u: N| #[trigger] live.contains(u) implies adj.has_node(u) && count_into(
            adj.out_arcs(u),
            live,
        ) >= c + 1 by {
            assert(is_live(adj, order, u));
        }
    }
    assert forall|u: N| #[trigger] is_live(adj, order, u) implies in_core(adj, u, c + 1) by {
        assert(live.contains(u));
    }
}

/// At the end of the run, each vertex is listed under its core number.
pub proof fn lemma_exact_listing<N>(
    adj: Adjacency<N>,
    m: Degrees<N>,
    buckets: Map<i32, HashSet<N>>,
    lists: Map<u32, Vec<N>>,
    order: Seq<N>,
    c: int,
    max: int,
)
    requires
        peel_inv(adj, m, buckets, lists, order, c, max),
        exact_inv(adj, m, order, c),
    ensures
        is_core_listing(adj, lists),
{
    assert forall|k: u32, i: int| 0 <= i < list_of(lists, k).len() implies is_core_number(
        adj,
        #[trigger] list_of(lists, k)[i],
        k as int,
    ) by {
        let v = list_of(lists, k)[i];
        assert(order.contains(v));
    }
}

/// What holds of the degrees depends on the degrees only: a record may be
/// replaced by one of the same degree.
pub proof fn lemma_exact_same_degree<N>(
    adj: Adjacency<N>,
    m: Degrees<N>,
    order: Seq<N>,
    c: int,
    v: N,
    record: MetadataKCore<N>,
)
    requires
        exact_inv(adj, m, order, c),
        record.degree == m[v].degree,
    ensures
        exact_inv(adj, m.insert(v, record), order, c),
{
    let m1 = m.insert(v, record);
    assert forall|u: N| #[trigger] is_live(adj, order, u) implies count_into(
        adj.out_arcs(u),
        live_set(adj, order),
    ) <= m1[u].degree <= at_least(c, count_into(adj.out_arcs(u), live_set(adj, order)) as int) by {
        assert(m1[u].degree == m[u].degree);
    }
    assert forall|u: N| #[trigger] order.contains(u) implies is_core_number(
        adj,
        u,
        m1[u].degree as int,
    ) by {
        assert(m1[u].degree == m[u].degree);
    }
}

} // verus!

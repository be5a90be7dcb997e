//! The k-core decomposition: what it computes, and the bookkeeping of a run.

use vstd::prelude::*;
use std::collections::HashMap;
use std::collections::HashSet;
use std::hash::Hash;
use crate::buckets::bucket_of;
use crate::model::Adjacency;

verus! {

/// What is known of one vertex during a run of the k-core decomposition.
#[derive(Debug)]
pub struct MetadataKCore<N> {
    /// The vertex.
    pub id: N,
    /// The current degree of the vertex: it goes down as neighbours of
    /// lower degree are peeled off.
    pub degree: u32,
    /// The core number that was assigned to the vertex; 0 until then.
    pub core: u32,
}

/// The number of arcs among `arcs` that enter a vertex of `s`.
pub open spec fn count_into<N>(arcs: Seq<(N, i32)>, s: Set<N>) -> nat
    decreases arcs.len(),
{
    if arcs.len() == 0 {
        0
    } else {
        count_into(arcs.drop_last(), s) + if s.contains(arcs.last().0) {
            1nat
        } else {
            0nat
        }
    }
}

/// The number of arcs among `arcs` that enter `v`.
pub open spec fn multiplicity<N>(arcs: Seq<(N, i32)>, v: N) -> nat {
    count_into(arcs, set![v])
}

/// Every arc enters a vertex of the graph.
pub open spec fn is_closed<N>(adj: Adjacency<N>) -> bool {
    forall|u: N, i: int|
        adj.has_node(u) && 0 <= i < adj.out_arcs(u).len() ==> adj.has_node(
            (#[trigger] adj.out_arcs(u)[i]).0,
        )
}

/// As many arcs lead from `u` to `v` as from `v` to `u`, for any two
/// vertices.
pub open spec fn is_symmetric<N>(adj: Adjacency<N>) -> bool {
    forall|u: N, v: N|
        adj.has_node(u) && adj.has_node(v) ==> #[trigger] multiplicity(adj.out_arcs(u), v)
            == multiplicity(adj.out_arcs(v), u)
}

/// The graph is undirected: closed and symmetric.
pub open spec fn is_undirected<N>(adj: Adjacency<N>) -> bool {
    is_closed(adj) && is_symmetric(adj)
}

/// Within `s`, every vertex has at least `k` arcs into `s`.
pub open spec fn is_core_set<N>(adj: Adjacency<N>, s: Set<N>, k: int) -> bool {
    forall|v: N| #[trigger]
        s.contains(v) ==> adj.has_node(v) && count_into(adj.out_arcs(v), s) >= k
}

/// `v` belongs to the `k`-core: to some set of vertices in which every
/// vertex has at least `k` arcs into the set.
pub open spec fn in_core<N>(adj: Adjacency<N>, v: N, k: int) -> bool {
    exists|s: Set<N>| #[trigger] s.contains(v) && is_core_set(adj, s, k)
}

/// `k` is the core number of `v`: `v` belongs to the `k`-core and to no
/// higher one.
pub open spec fn is_core_number<N>(adj: Adjacency<N>, v: N, k: int) -> bool {
    in_core(adj, v, k) && !in_core(adj, v, k + 1)
}

/// The vertices listed under the core number `k`; none when nothing is
/// listed under it.
pub open spec fn list_of<N>(lists: Map<u32, Vec<N>>, k: u32) -> Seq<N> {
    if lists.contains_key(k) {
        lists[k]@
    } else {
        Seq::empty()
    }
}

/// The lists hold each vertex of the graph once, under a number that is at
/// most its degree, and nothing else; no list is empty.
pub open spec fn is_listing<N>(adj: Adjacency<N>, lists: Map<u32, Vec<N>>) -> bool {
    &&& forall|k: u32, i: int|
        0 <= i < list_of(lists, k).len() ==> adj.has_node(#[trigger] list_of(lists, k)[i]) && k
            <= adj.degree(list_of(lists, k)[i])
    &&& forall|v: N| adj.has_node(v) ==> exists|k: u32| #[trigger] list_of(lists, k).contains(v)
    &&& forall|k1: u32, i1: int, k2: u32, i2: int|
        0 <= i1 < list_of(lists, k1).len() && 0 <= i2 < list_of(lists, k2).len() && (
        #[trigger] list_of(lists, k1)[i1]) == (#[trigger] list_of(lists, k2)[i2]) ==> k1 == k2
            && i1 == i2
    &&& forall|k: u32| #[trigger] lists.contains_key(k) ==> lists[k]@.len() > 0
}

/// Each vertex is listed under its core number.
pub open spec fn is_core_listing<N>(adj: Adjacency<N>, lists: Map<u32, Vec<N>>) -> bool {
    forall|k: u32, i: int|
        0 <= i < list_of(lists, k).len() ==> is_core_number(
            adj,
            #[trigger] list_of(lists, k)[i],
            k as int,
        )
}

/// Every vertex has fewer than `i32::MAX` outgoing arcs, so that its degree
/// can serve as a bucket key. (A degree beyond that is taken for
/// `i32::MAX - 1`.)
pub open spec fn degrees_fit<N>(adj: Adjacency<N>) -> bool {
    forall|v: N| adj.has_node(v) ==> #[trigger] adj.degree(v) < i32::MAX
}

/// Appends `v` to the list under `k`, creating the list when there is none.
pub fn append_to_list<N: Eq + Hash + Clone>(lists: &mut HashMap<u32, Vec<N>>, k: u32, v: N)
    ensures
        list_of(final(lists)@, k) == list_of(old(lists)@, k).push(v),
        final(lists)@.contains_key(k),
        forall|j: u32| j != k
            ==> (#[trigger] final(lists)@.contains_key(j)) == old(lists)@.contains_key(j),
        forall|j: u32| j != k ==> #[trigger] list_of(final(lists)@, j) == list_of(old(lists)@, j),
{
    let mut list: Vec<N> = match lists.remove(&k) {
        Some(list) => list,
        None => Vec::new(),
    };
    list.push(v);
    lists.insert(k, list);
    proof {
        assert forall|j: u32| j != k implies #[trigger] list_of(lists@, j) == list_of(
            old(lists)@,
            j,
        ) by {}
    }
}

/// The bookkeeping of a run, as a mathematical map.
pub type Degrees<N> = Map<N, MetadataKCore<N>>;

/// `v` is a vertex that has not been peeled off.
pub open spec fn is_live<N>(adj: Adjacency<N>, order: Seq<N>, v: N) -> bool {
    adj.has_node(v) && !order.contains(v)
}

/// The bookkeeping is consistent: `order` holds the vertices peeled off so
/// far, each listed under the degree it had then; the others sit in the
/// bucket of their current degree, which lies between the current core
/// number `c` and the greatest degree `max`.
pub open spec fn peel_inv<N>(
    adj: Adjacency<N>,
    m: Degrees<N>,
    buckets: Map<i32, HashSet<N>>,
    lists: Map<u32, Vec<N>>,
    order: Seq<N>,
    c: int,
    max: int,
) -> bool {
    &&& m.dom() == adj.nodes()
    &&& adj.nodes().finite()
    &&& order.no_duplicates()
    &&& order.len() <= adj.nodes().len()
    &&& 0 <= c
    &&& max < i32::MAX
    &&& forall|v: N| #[trigger] order.contains(v) ==> adj.has_node(v) && m[v].degree <= c
    &&& forall|v: N| #[trigger] m.contains_key(v) ==> m[v].degree <= adj.degree(v)
    &&& forall|v: N| #[trigger] is_live(adj, order, v) ==> c <= m[v].degree <= max
    &&& forall|k: i32, v: N| #[trigger]
        bucket_of(buckets, k).contains(v) <==> is_live(adj, order, v) && m[v].degree == k
    &&& forall|k: u32, i: int|
        0 <= i < list_of(lists, k).len() ==> order.contains(#[trigger] list_of(lists, k)[i])
            && m[list_of(lists, k)[i]].degree == k
    &&& forall|v: N| #[trigger]
        order.contains(v) ==> list_of(lists, m[v].degree).contains(v)
    &&& forall|k: u32| (#[trigger] list_of(lists, k)).no_duplicates()
    &&& forall|k: u32| #[trigger] lists.contains_key(k) ==> lists[k]@.len() > 0
}

/// Once every vertex is peeled off, the lists are as promised.
pub proof fn lemma_peeled_all<N>(
    adj: Adjacency<N>,
    m: Degrees<N>,
    buckets: Map<i32, HashSet<N>>,
    lists: Map<u32, Vec<N>>,
    order: Seq<N>,
    c: int,
    max: int,
)
    requires
        peel_inv(adj, m, buckets, lists, order, c, max),
        c > max,
    ensures
        is_listing(adj, lists),
{
    assert forall|v: N| adj.has_node(v) implies exists|k: u32| #[trigger]
        list_of(lists, k).contains(v) by {
        if !order.contains(v) {
            assert(is_live(adj, order, v));
        }
        assert(list_of(lists, m[v].degree).contains(v));
    }
    assert forall|k: u32, i: int| 0 <= i < list_of(lists, k).len() implies adj.has_node(
        #[trigger] list_of(lists, k)[i],
    ) && k <= adj.degree(list_of(lists, k)[i]) by {
        let v = list_of(lists, k)[i];
        assert(order.contains(v));
        assert(m.contains_key(v));
    }
    assert forall|k1: u32, i1: int, k2: u32, i2: int|
        0 <= i1 < list_of(lists, k1).len() && 0 <= i2 < list_of(lists, k2).len() && (
        #[trigger] list_of(lists, k1)[i1]) == (#[trigger] list_of(lists, k2)[i2]) implies k1 == k2
        && i1 == i2 by {
        assert(m[list_of(lists, k1)[i1]].degree == k1);
        assert(m[list_of(lists, k2)[i2]].degree == k2);
        assert(list_of(lists, k1).no_duplicates());
    }
}

/// The bookkeeping at the start of a run: nothing is peeled off, every
/// vertex has its full degree and sits in the bucket of that degree.
pub proof fn lemma_peel_starts<N>(
    adj: Adjacency<N>,
    m: Degrees<N>,
    buckets: Map<i32, HashSet<N>>,
    lists: Map<u32, Vec<N>>,
    max: int,
)
    requires
        m.dom() == adj.nodes(),
        adj.nodes().finite(),
        max < i32::MAX,
        lists == Map::<u32, Vec<N>>::empty(),
        forall|v: N| #[trigger] m.contains_key(v)
            ==> m[v].degree <= adj.degree(v) && m[v].degree <= max,
        forall|k: i32, v: N| #[trigger]
            bucket_of(buckets, k).contains(v) <==> adj.has_node(v) && m[v].degree == k,
    ensures
        peel_inv(adj, m, buckets, lists, Seq::<N>::empty(), 0, max),
{
    let order = Seq::<N>::empty();
    assert forall|v: N| #[trigger] is_live(adj, order, v) implies 0 <= m[v].degree <= max by {
        assert(m.contains_key(v));
    }
    assert forall|k: u32| (#[trigger] list_of(lists, k)).no_duplicates() by {}
}

/// Peeling off a vertex of the current bucket keeps the bookkeeping
/// consistent.
pub proof fn lemma_peel<N>(
    adj: Adjacency<N>,
    m: Degrees<N>,
    buckets: Map<i32, HashSet<N>>,
    lists: Map<u32, Vec<N>>,
    order: Seq<N>,
    c: int,
    max: int,
    v: N,
    buckets1: Map<i32, HashSet<N>>,
    lists1: Map<u32, Vec<N>>,
)
    requires
        peel_inv(adj, m, buckets, lists, order, c, max),
        c <= max,
        bucket_of(buckets, c as i32).contains(v),
        bucket_of(buckets1, c as i32) == bucket_of(buckets, c as i32).remove(v),
        forall|k: i32| k != c ==> #[trigger] bucket_of(buckets1, k) == bucket_of(buckets, k),
        list_of(lists1, c as u32) == list_of(lists, c as u32).push(v),
        lists1.contains_key(c as u32),
        forall|j: u32| j != c ==> (#[trigger] lists1.contains_key(j)) == lists.contains_key(j),
        forall|j: u32| j != c ==> #[trigger] list_of(lists1, j) == list_of(lists, j),
    ensures
        peel_inv(adj, m, buckets1, lists1, order.push(v), c, max),
        is_live(adj, order, v),
        m[v].degree == c,
{
    let order1 = order.push(v);
    assert(is_live(adj, order, v) && m[v].degree == c);
    assert forall|u: N| #[trigger] order1.contains(u) <==> order.contains(u) || u == v by {
        if order.contains(u) {
            let a = choose|a: int| 0 <= a < order.len() && order[a] == u;
            assert(order1[a] == u);
        }
        if u == v {
            assert(order1[order.len() as int] == v);
        }
        if order1.contains(u) && u != v {
            let a = choose|a: int| 0 <= a < order1.len() && order1[a] == u;
            assert(order[a] == u);
        }
    }
    assert(order1.no_duplicates()) by {
        assert forall|a: int, b: int|
            0 <= a < order1.len() && 0 <= b < order1.len() && a != b implies order1[a]
            != order1[b] by {
            if a < order.len() {
                assert(order.contains(order[a]));
            }
            if b < order.len() {
                assert(order.contains(order[b]));
            }
        }
    }
    assert(order1.len() <= adj.nodes().len()) by {
        order1.unique_seq_to_set();
        assert(order1.to_set().subset_of(adj.nodes())) by {
            assert forall|u: N| order1.to_set().contains(u) implies adj.nodes().contains(u) by {
                assert(order1.contains(u));
            }
        }
        vstd::set_lib::lemma_len_subset(order1.to_set(), adj.nodes());
    }
    assert forall|u: N| #[trigger] is_live(adj, order1, u) implies c <= m[u].degree <= max by {
        assert(is_live(adj, order, u));
    }
    assert forall|k: i32, u: N| #[trigger]
        bucket_of(buckets1, k).contains(u) <==> is_live(adj, order1, u) && m[u].degree == k by {
        assert(bucket_of(buckets, k).contains(u) <==> is_live(adj, order, u) && m[u].degree == k);
        if k != c {
            assert(bucket_of(buckets1, k) == bucket_of(buckets, k));
        }
    }
    assert forall|k: u32, i: int| 0 <= i < list_of(lists1, k).len() implies order1.contains(
        #[trigger] list_of(lists1, k)[i],
    ) && m[list_of(lists1, k)[i]].degree == k by {
        if k == c {
            if i < list_of(lists, k).len() {
                assert(list_of(lists1, k)[i] == list_of(lists, k)[i]);
                assert(order.contains(list_of(lists, k)[i]));
            }
        } else {
            assert(list_of(lists1, k) == list_of(lists, k));
            assert(order.contains(list_of(lists, k)[i]));
        }
    }
    assert forall|u: N| #[trigger] order1.contains(u) implies list_of(
        lists1,
        m[u].degree,
    ).contains(u) by {
        if u == v {
            assert(list_of(lists1, c as u32)[list_of(lists, c as u32).len() as int] == v);
        } else {
            assert(order.contains(u));
            let k = m[u].degree;
            assert(list_of(lists, k).contains(u));
            let a = choose|a: int| 0 <= a < list_of(lists, k).len() && list_of(lists, k)[a] == u;
            if k == c {
                assert(list_of(lists1, k)[a] == u);
            } else {
                assert(list_of(lists1, k) == list_of(lists, k));
            }
        }
    }
    assert forall|k: u32| (#[trigger] list_of(lists1, k)).no_duplicates() by {
        assert(list_of(lists, k).no_duplicates());
        if k == c {
            let l = list_of(lists, k);
            let l1 = list_of(lists1, k);
            assert forall|a: int, b: int| 0 <= a < l1.len() && 0 <= b < l1.len() && a != b implies
                l1[a]
                != l1[b] by {
                if a < l.len() {
                    assert(order.contains(l[a]));
                }
                if b < l.len() {
                    assert(order.contains(l[b]));
                }
            }
        } else {
            assert(list_of(lists1, k) == list_of(lists, k));
        }
    }
    assert forall|k: u32| #[trigger] lists1.contains_key(k) implies lists1[k]@.len() > 0 by {
        if k != c {
            assert(lists.contains_key(k));
            assert(list_of(lists1, k) == list_of(lists, k));
        } else {
            assert(list_of(lists1, k).len() > 0);
        }
    }
}

/// Lowering the degree of a vertex that is above the current core number,
/// and moving it to the bucket below, keeps the bookkeeping consistent.
pub proof fn lemma_lower<N>(
    adj: Adjacency<N>,
    m: Degrees<N>,
    buckets: Map<i32, HashSet<N>>,
    lists: Map<u32, Vec<N>>,
    order: Seq<N>,
    c: int,
    max: int,
    u: N,
    lowered: MetadataKCore<N>,
    buckets1: Map<i32, HashSet<N>>,
)
    requires
        peel_inv(adj, m, buckets, lists, order, c, max),
        m.contains_key(u),
        m[u].degree > c,
        lowered.degree == m[u].degree - 1,
        bucket_of(buckets1, m[u].degree as i32) == bucket_of(buckets, m[u].degree as i32).remove(u),
        bucket_of(buckets1, (m[u].degree - 1) as i32) == bucket_of(
            buckets,
            (m[u].degree - 1) as i32,
        ).insert(u),
        forall|k: i32|
            k != m[u].degree && k != m[u].degree - 1 ==> #[trigger] bucket_of(buckets1, k)
                == bucket_of(buckets, k),
    ensures
        peel_inv(adj, m.insert(u, lowered), buckets1, lists, order, c, max),
        is_live(adj, order, u),
{
    let m1 = m.insert(u, lowered);
    assert(m1.dom() =~= m.dom());
    assert(!order.contains(u));
    assert(is_live(adj, order, u));
    assert forall|v: N| #[trigger] m1.contains_key(v) implies m1[v].degree <= adj.degree(v) by {
        assert(m.contains_key(v));
    }
    assert forall|k: i32, v: N| #[trigger]
        bucket_of(buckets1, k).contains(v) <==> is_live(adj, order, v) && m1[v].degree == k by {
        assert(bucket_of(buckets, k).contains(v) <==> is_live(adj, order, v) && m[v].degree == k);
        if k != m[u].degree && k != m[u].degree - 1 {
            assert(bucket_of(buckets1, k) == bucket_of(buckets, k));
        }
    }
    assert forall|k: u32, i: int| 0 <= i < list_of(lists, k).len() implies order.contains(
        #[trigger] list_of(lists, k)[i],
    ) && m1[list_of(lists, k)[i]].degree == k by {
        assert(order.contains(list_of(lists, k)[i]));
    }
    assert forall|v: N| #[trigger] order.contains(v) implies list_of(lists, m1[v].degree).contains(
        v,
    ) by {
        assert(list_of(lists, m[v].degree).contains(v));
    }
    assert forall|v: N| #[trigger] is_live(adj, order, v) implies c <= m1[v].degree <= max by {
        assert(c <= m[v].degree <= max);
    }
}

/// When the current bucket is empty, the current core number moves on.
pub proof fn lemma_next_core<N>(
    adj: Adjacency<N>,
    m: Degrees<N>,
    buckets: Map<i32, HashSet<N>>,
    lists: Map<u32, Vec<N>>,
    order: Seq<N>,
    c: int,
    max: int,
)
    requires
        peel_inv(adj, m, buckets, lists, order, c, max),
        bucket_of(buckets, c as i32) == Set::<N>::empty(),
        c <= max,
    ensures
        peel_inv(adj, m, buckets, lists, order, c + 1, max),
{
    assert forall|v: N| #[trigger] is_live(adj, order, v) implies c + 1 <= m[v].degree <= max by {
        assert(c <= m[v].degree <= max);
        if m[v].degree == c {
            assert(bucket_of(buckets, c as i32).contains(v));
        }
    }
}

/// The bookkeeping depends on the degrees only: a record may be replaced by
/// one of the same degree.
pub proof fn lemma_same_degree<N>(
    adj: Adjacency<N>,
    m: Degrees<N>,
    buckets: Map<i32, HashSet<N>>,
    lists: Map<u32, Vec<N>>,
    order: Seq<N>,
    c: int,
    max: int,
    v: N,
    record: MetadataKCore<N>,
)
    requires
        peel_inv(adj, m, buckets, lists, order, c, max),
        m.contains_key(v),
        record.degree == m[v].degree,
    ensures
        peel_inv(adj, m.insert(v, record), buckets, lists, order, c, max),
{
    let m1 = m.insert(v, record);
    assert(m1.dom() =~= m.dom());
    assert forall|u: N| #[trigger] order.contains(u) implies
        adj.has_node(u) && m1[u].degree <= c by {
        assert(m[u].degree <= c);
    }
    assert forall|u: N| #[trigger] m1.contains_key(u) implies m1[u].degree <= adj.degree(u) by {
        assert(m.contains_key(u));
    }
    assert forall|u: N| #[trigger] is_live(adj, order, u) implies c <= m1[u].degree <= max by {
        assert(c <= m[u].degree <= max);
    }
    assert forall|k: i32, u: N| #[trigger]
        bucket_of(buckets, k).contains(u) <==> is_live(adj, order, u) && m1[u].degree == k by {
        assert(bucket_of(buckets, k).contains(u) <==> is_live(adj, order, u) && m[u].degree == k);
    }
    assert forall|k: u32, i: int| 0 <= i < list_of(lists, k).len() implies order.contains(
        #[trigger] list_of(lists, k)[i],
    ) && m1[list_of(lists, k)[i]].degree == k by {
        assert(m[list_of(lists, k)[i]].degree == k);
    }
    assert forall|u: N| #[trigger] order.contains(u) implies list_of(lists, m1[u].degree).contains(
        u,
    ) by {
        assert(list_of(lists, m[u].degree).contains(u));
    }
}

} // verus!

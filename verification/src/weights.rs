//! The weights that occur among edges, in ascending order.

use vstd::prelude::*;
use std::collections::BTreeSet;
use vstd::laws_cmp::obeys_cmp;
use vstd::std_specs::btree::increasing_seq;
use vstd::std_specs::cmp::OrdSpec;
use vstd::std_specs::iter::IteratorSpec;

verus! {

/// Each key is less than the next.
pub open spec fn is_increasing(keys: Seq<i32>) -> bool {
    forall|i: int, j: int| 0 <= i < j < keys.len() ==> keys[i] < keys[j]
}

/// One of the first `n` edges has the weight `w`.
pub open spec fn occurs_among<N>(edges: Seq<(N, N, i32)>, n: int, w: i32) -> bool {
    exists|i: int| 0 <= i < n && (#[trigger] edges[i]).2 == w
}

/// Some edge has the weight `w`.
pub open spec fn occurs<N>(edges: Seq<(N, N, i32)>, w: i32) -> bool {
    occurs_among(edges, edges.len() as int, w)
}

/// Integers are ordered as the ordered collections of the standard library
/// expect.
proof fn lemma_integers_ordered()
    ensures
        obeys_cmp::<i32>(),
{
    broadcast use vstd::laws_cmp::group_laws_cmp;
}

/// What the standard library calls an increasing sequence of integers is
/// one in which each is less than the next.
proof fn lemma_increasing(sorted: Seq<&i32>)
    requires
        increasing_seq(sorted),
    ensures
        is_increasing(sorted.unref()),
{
    broadcast use vstd::laws_cmp::group_laws_cmp;
    broadcast use vstd::std_specs::btree::group_btree_axioms;
    assert(obeys_cmp::<i32>());
    assert(obeys_cmp::<&i32>()) by {
        reveal(vstd::laws_eq::obeys_eq_spec_properties);
        reveal(vstd::laws_cmp::obeys_partial_cmp_spec_properties);
        reveal(vstd::laws_cmp::obeys_cmp_partial_ord);
        reveal(vstd::laws_cmp::obeys_cmp_ord);
    }
    vstd::std_specs::btree::axiom_increasing_seq_meaning(sorted);
    assert forall|i: int, j: int| 0 <= i < j < sorted.len() implies *sorted[i] < *sorted[j] by {
        assert(comes_before(sorted[i], sorted[j]));
    }
}

/// `a` is ordered before `b`.
spec fn comes_before<K: Ord>(a: K, b: K) -> bool {
    a.cmp_spec(&b) is Less
}

/// The members of the set, in ascending order.
fn keys_of(seen: &BTreeSet<i32>) -> (keys: Vec<i32>)
    requires
        obeys_cmp::<i32>(),
    ensures
        is_increasing(keys@),
        forall|w: i32| keys@.contains(w) <==> seen@.contains(w),
{
    broadcast use vstd::std_specs::btree::group_btree_axioms;

    let mut keys: Vec<i32> = Vec::new();
    let ghost sorted = seen.iter().remaining();
    for key in it: seen.iter()
        invariant
            it.seq() == sorted,
            keys@.len() == it.index(),
            forall|j: int| 0 <= j < keys@.len() ==> keys@[j] == *sorted[j],
    {
        keys.push(*key);
    }
    proof {
        assert(keys@ =~= sorted.unref());
        lemma_increasing(sorted);
        assert forall|w: i32| keys@.contains(w) <==> seen@.contains(w) by {
            assert(sorted.unref().to_set().contains(w) <==> seen@.contains(w));
        }
    }
    keys
}

/// One more edge adds its weight to those that occur.
proof fn lemma_occurs_next<N>(edges: Seq<(N, N, i32)>, n: int, before: Set<i32>, after: Set<i32>)
    requires
        0 <= n < edges.len(),
        forall|w: i32| before.contains(w) <==> occurs_among(edges, n, w),
        after == before.insert(edges[n].2),
    ensures
        forall|w: i32| after.contains(w) <==> occurs_among(edges, n + 1, w),
{
    assert forall|w: i32| after.contains(w) <==> occurs_among(edges, n + 1, w) by {
        assert(before.contains(w) <==> occurs_among(edges, n, w));
        if occurs_among(edges, n, w) {
            let j = choose|j: int| 0 <= j < n && (#[trigger] edges[j]).2 == w;
            assert(edges[j].2 == w);
        }
        if w == edges[n].2 {
            assert(edges[n].2 == w);
        }
    }
}

/// The weights that occur among the edges, each once, in ascending order.
pub fn distinct_weights<N>(edges: &Vec<(N, N, i32)>) -> (keys: Vec<i32>)
    ensures
        is_increasing(keys@),
        forall|w: i32| keys@.contains(w) <==> occurs(edges@, w),
{
    broadcast use vstd::std_specs::btree::group_btree_axioms;

    proof {
        lemma_integers_ordered();
    }
    let mut seen: BTreeSet<i32> = BTreeSet::new();
    let mut i: usize = 0;
    while i < edges.len()
        invariant
            i <= edges.len(),
            forall|w: i32| seen@.contains(w) <==> occurs_among(edges@, i as int, w),
        decreases edges.len() - i,
    {
        let ghost before = seen@;
        seen.insert(edges[i].2);
        proof {
            lemma_occurs_next(edges@, i as int, before, seen@);
        }
        i += 1;
    }
    let keys = keys_of(&seen);
    proof {
        assert forall|w: i32| keys@.contains(w) <==> occurs(edges@, w) by {
            assert(seen@.contains(w) <==> occurs_among(edges@, edges@.len() as int, w));
        }
    }
    keys
}

} // verus!

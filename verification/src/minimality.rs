//! Why the forest that Kruskal's algorithm builds is as light as any
//! spanning forest.

use vstd::prelude::*;
use crate::kruskal::{closes_cycle, forest_at, has_ends, is_greedy_forest, taken};
use crate::kruskal_run::{
    lemma_choice_within, lemma_forest_grows, lemma_forest_spans, lemma_pick_connects,
};
use crate::spanning::{is_forest, lemma_connected_within, lemma_forest_rank};
use crate::walks::connected;

verus! {

/// The sum of the weights of the edges.
pub open spec fn total_weight<N>(edges: Seq<(N, N, i32)>) -> int
    decreases edges.len(),
{
    if edges.len() == 0 {
        0
    } else {
        total_weight(edges.drop_last()) + edges.last().2
    }
}

/// The picks are a spanning forest of the graph: they are edges of the graph
/// that form a forest, and the forest connects whatever an edge of the graph
/// joins.
pub open spec fn is_spanning_forest<N>(
    nodes: Set<N>,
    edges: Seq<(N, N, i32)>,
    picks: Seq<usize>,
) -> bool {
    &&& forall|j: int| 0 <= j < picks.len() ==> (#[trigger] picks[j]) < edges.len()
    &&& is_forest(nodes, taken(edges, picks))
    &&& forall|i: usize|
        i < edges.len() && has_ends(nodes, #[trigger] edges[i as int]) ==> connected(
            forest_at(nodes, taken(edges, picks), picks.len() as int),
            edges[i as int].0,
            edges[i as int].1,
        )
}

/// The picks are a minimum spanning forest of the graph: a spanning forest
/// that weighs no more than any other.
pub open spec fn is_minimum_spanning_forest<N>(
    nodes: Set<N>,
    edges: Seq<(N, N, i32)>,
    picks: Seq<usize>,
) -> bool {
    &&& is_spanning_forest(nodes, edges, picks)
    &&& forall|other: Seq<usize>| #[trigger]
        is_spanning_forest(nodes, edges, other) ==> total_weight(taken(edges, picks))
            <= total_weight(taken(edges, other))
}

/// The number of edges that weigh at most `t`.
pub open spec fn count_light<N>(edges: Seq<(N, N, i32)>, t: int) -> nat
    decreases edges.len(),
{
    if edges.len() == 0 {
        0
    } else {
        count_light(edges.drop_last(), t) + if edges.last().2 <= t {
            1nat
        } else {
            0nat
        }
    }
}

/// The edges that weigh at most `t`, in their order.
pub open spec fn light<N>(edges: Seq<(N, N, i32)>, t: int) -> Seq<(N, N, i32)>
    decreases edges.len(),
{
    if edges.len() == 0 {
        Seq::empty()
    } else if edges.last().2 <= t {
        light(edges.drop_last(), t).push(edges.last())
    } else {
        light(edges.drop_last(), t)
    }
}

/// The number of pairs of an edge and a threshold `s`, `lo <= s < t`, such
/// that the edge weighs more than `s`.
pub open spec fn heavy_pairs<N>(edges: Seq<(N, N, i32)>, lo: int, t: int) -> int
    decreases t - lo,
{
    if t <= lo {
        0
    } else {
        heavy_pairs(edges, lo, t - 1) + edges.len() - count_light(edges, t - 1)
    }
}

/// The edges are listed in the order of their weights.
pub open spec fn is_sorted<N>(edges: Seq<(N, N, i32)>) -> bool {
    forall|i: int, j: int| 0 <= i < j < edges.len()
        ==> (#[trigger] edges[i]).2 <= (#[trigger] edges[j]).2
}

/// The light edges are as many as were counted, and each is one of the
/// edges.
proof fn lemma_light<N>(edges: Seq<(N, N, i32)>, t: int)
    ensures
        light(edges, t).len() == count_light(edges, t),
        forall|k: int|
            0 <= k < light(edges, t).len() ==> (#[trigger] light(edges, t)[k]).2 <= t && exists|
                j: int,
            |
                0 <= j < edges.len() && edges[j] == light(edges, t)[k],
    decreases edges.len(),
{
    if edges.len() > 0 {
        let shorter = edges.drop_last();
        lemma_light(shorter, t);
        assert forall|k: int| 0 <= k < light(edges, t).len() implies (#[trigger] light(
            edges,
            t,
        )[k]).2 <= t && exists|j: int| 0 <= j < edges.len() && edges[j] == light(edges, t)[k] by {
            if k < light(shorter, t).len() {
                assert(light(edges, t)[k] == light(shorter, t)[k]);
                let j = choose|j: int| 0 <= j < shorter.len() && shorter[j] == light(shorter, t)[k];
                assert(edges[j] == light(edges, t)[k]);
            } else {
                assert(edges[edges.len() - 1] == light(edges, t)[k]);
            }
        }
    }
}

/// The first edges of a forest form a forest.
proof fn lemma_forest_prefix<N>(nodes: Set<N>, edges: Seq<(N, N, i32)>, k: int)
    requires
        is_forest(nodes, edges),
        0 <= k <= edges.len(),
    ensures
        is_forest(nodes, edges.take(k)),
        forest_at(nodes, edges.take(k), k) == forest_at(nodes, edges, k),
{
    let first = edges.take(k);
    assert forall|j: int| 0 <= j < first.len() implies has_ends(nodes, #[trigger] first[j]) by {
        assert(first[j] == edges[j]);
        assert(has_ends(nodes, edges[j]));
    }
    assert forall|j: int| 0 <= j < first.len() implies !connected(
        forest_at(nodes, first, j),
        (#[trigger] first[j]).0,
        first[j].1,
    ) by {
        assert(first.take(j) =~= edges.take(j));
        assert(first[j] == edges[j]);
    }
    assert(first.take(k) =~= edges.take(k));
}

/// The light edges of a forest form a forest.
proof fn lemma_light_forest<N>(nodes: Set<N>, edges: Seq<(N, N, i32)>, t: int)
    requires
        nodes.finite(),
        is_forest(nodes, edges),
    ensures
        is_forest(nodes, light(edges, t)),
    decreases edges.len(),
{
    if edges.len() > 0 {
        let n = edges.len() - 1;
        let shorter = edges.drop_last();
        let last = edges[n];
        assert(shorter =~= edges.take(n));
        lemma_forest_prefix(nodes, edges, n);
        lemma_light_forest(nodes, shorter, t);
        lemma_light(shorter, t);
        if last.2 <= t {
            let some = light(shorter, t);
            let all = light(edges, t);
            assert(has_ends(nodes, last));
            assert forall|j: int| 0 <= j < all.len() implies has_ends(nodes, #[trigger] all[j]) by {
                if j < some.len() {
                    assert(all[j] == some[j]);
                    assert(has_ends(nodes, some[j]));
                }
            }
            assert forall|j: int| 0 <= j < all.len() implies !connected(
                forest_at(nodes, all, j),
                (#[trigger] all[j]).0,
                all[j].1,
            ) by {
                assert(all.take(j) =~= some.take(j));
                if j < some.len() {
                    assert(all[j] == some[j]);
                } else {
                    assert(some.take(j) =~= some);
                    if connected(forest_at(nodes, some, some.len() as int), last.0, last.1) {
                        assert forall|k: int| 0 <= k < some.len() implies connected(
                            forest_at(nodes, shorter, shorter.len() as int),
                            (#[trigger] some[k]).0,
                            some[k].1,
                        ) by {
                            let i = choose|i: int| 0 <= i < shorter.len() && shorter[i] == some[k];
                            lemma_pick_connects(nodes, shorter, i);
                        }
                        lemma_connected_within(nodes, some, shorter, last.0, last.1);
                        assert(shorter.take(n) =~= shorter);
                        assert(connected(forest_at(nodes, edges, n), last.0, last.1));
                    }
                }
            }
        }
    }
}

/// Among edges listed in the order of their weights, the light ones come
/// first.
proof fn lemma_light_first<N>(edges: Seq<(N, N, i32)>, t: int)
    requires
        is_sorted(edges),
    ensures
        count_light(edges, t) <= edges.len(),
        forall|j: int| 0 <= j < count_light(edges, t) ==> (#[trigger] edges[j]).2 <= t,
        forall|j: int| count_light(edges, t) <= j < edges.len() ==> (#[trigger] edges[j]).2 > t,
    decreases edges.len(),
{
    if edges.len() > 0 {
        let n = edges.len() - 1;
        let shorter = edges.drop_last();
        assert forall|i: int, j: int| 0 <= i < j < shorter.len() implies (#[trigger] shorter[i]).2
            <= (#[trigger] shorter[j]).2 by {
            assert(shorter[i] == edges[i]);
            assert(shorter[j] == edges[j]);
        }
        lemma_light_first(shorter, t);
        let m = count_light(shorter, t) as int;
        assert forall|j: int| 0 <= j < count_light(edges, t) implies
            (#[trigger] edges[j]).2 <= t by {
            if j < m {
                assert(shorter[j] == edges[j]);
            } else if j < n {
                // the last edge is light, so the one at `j` is
                assert(edges[j].2 <= edges[n].2);
            }
        }
        assert forall|j: int| count_light(edges, t) <= j < edges.len() implies
            (#[trigger] edges[j]).2
            > t by {
            if j < n {
                assert(shorter[j] == edges[j]);
                if edges[n].2 <= t {
                    assert(shorter[m].2 > t);
                    assert(shorter[m] == edges[m]);
                    assert(edges[m].2 <= edges[n].2);
                }
            } else {
                if edges[n].2 <= t && m < n {
                    assert(shorter[m].2 > t);
                    assert(shorter[m] == edges[m]);
                    assert(edges[m].2 <= edges[n].2);
                }
            }
        }
    }
}

/// One more edge adds, for each threshold below its weight, one pair.
proof fn lemma_heavy_pairs_push<N>(edges: Seq<(N, N, i32)>, edge: (N, N, i32), lo: int, t: int)
    requires
        lo <= edge.2,
        lo <= t,
    ensures
        heavy_pairs(edges.push(edge), lo, t) == heavy_pairs(edges, lo, t) + (if edge.2 <= t {
            edge.2 as int
        } else {
            t
        }) - lo,
    decreases t - lo,
{
    if t > lo {
        lemma_heavy_pairs_push(edges, edge, lo, t - 1);
        assert(edges.push(edge).drop_last() =~= edges);
    }
}

/// Two lists of as many edges differ in weight as they differ in pairs.
proof fn lemma_weight_by_pairs<N>(one: Seq<(N, N, i32)>, other: Seq<(N, N, i32)>, lo: int, hi: int)
    requires
        one.len() == other.len(),
        lo <= hi,
        forall|j: int| 0 <= j < one.len() ==> lo <= (#[trigger] one[j]).2 <= hi,
        forall|j: int| 0 <= j < other.len() ==> lo <= (#[trigger] other[j]).2 <= hi,
    ensures
        total_weight(one) - total_weight(other) == heavy_pairs(one, lo, hi) - heavy_pairs(
            other,
            lo,
            hi,
        ),
    decreases one.len(),
{
    if one.len() == 0 {
        lemma_no_pairs(one, lo, hi);
        lemma_no_pairs(other, lo, hi);
    } else {
        let n = one.len() - 1;
        let one1 = one.drop_last();
        let other1 = other.drop_last();
        assert forall|j: int| 0 <= j < one1.len() implies lo <= (#[trigger] one1[j]).2 <= hi by {
            assert(one1[j] == one[j]);
        }
        assert forall|j: int| 0 <= j < other1.len() implies
            lo <= (#[trigger] other1[j]).2 <= hi by {
            assert(other1[j] == other[j]);
        }
        lemma_weight_by_pairs(one1, other1, lo, hi);
        lemma_heavy_pairs_push(one1, one[n], lo, hi);
        lemma_heavy_pairs_push(other1, other[n], lo, hi);
        assert(one1.push(one[n]) =~= one);
        assert(other1.push(other[n]) =~= other);
    }
}

/// Without edges there are no pairs.
proof fn lemma_no_pairs<N>(edges: Seq<(N, N, i32)>, lo: int, t: int)
    requires
        edges.len() == 0,
    ensures
        heavy_pairs(edges, lo, t) == 0,
    decreases t - lo,
{
    if t > lo {
        lemma_no_pairs(edges, lo, t - 1);
    }
}

/// A list that has, at every threshold, at least as many light edges as
/// another of the same length has at most as many pairs.
proof fn lemma_fewer_pairs<N>(one: Seq<(N, N, i32)>, other: Seq<(N, N, i32)>, lo: int, t: int)
    requires
        one.len() == other.len(),
        forall|s: int| count_light(other, s) <= #[trigger] count_light(one, s),
    ensures
        heavy_pairs(one, lo, t) <= heavy_pairs(other, lo, t),
    decreases t - lo,
{
    if t > lo {
        lemma_fewer_pairs(one, other, lo, t - 1);
        assert(count_light(other, t - 1) <= count_light(one, t - 1));
    }
}

/// The picks of a greedy forest form a spanning forest that is listed in
/// the order of its weights.
pub proof fn lemma_greedy_spans<N>(nodes: Set<N>, edges: Seq<(N, N, i32)>, picks: Seq<usize>)
    requires
        is_greedy_forest(nodes, edges, picks),
    ensures
        is_spanning_forest(nodes, edges, picks),
        is_sorted(taken(edges, picks)),
{
    let own = taken(edges, picks);
    lemma_choice_within(nodes, edges, picks);
    assert forall|j: int| 0 <= j < own.len() implies !connected(
        forest_at(nodes, own, j),
        (#[trigger] own[j]).0,
        own[j].1,
    ) by {
        assert(!connected(
            forest_at(nodes, own, j),
            edges[picks[j] as int].0,
            edges[picks[j] as int].1,
        ));
    }
    assert forall|i: usize|
        i < edges.len() && has_ends(nodes, #[trigger] edges[i as int]) implies connected(
        forest_at(nodes, own, picks.len() as int),
        edges[i as int].0,
        edges[i as int].1,
    ) by {
        lemma_forest_spans(nodes, edges, picks, i);
    }
    assert forall|i: int, j: int| 0 <= i < j < own.len() implies (#[trigger] own[i]).2 <= (
    #[trigger] own[j]).2 by {
        assert(edges[picks[i] as int].2 <= edges[picks[j] as int].2);
    }
}

/// At every threshold, a greedy forest has at least as many light edges as
/// any spanning forest.
proof fn lemma_greedy_has_more_light<N>(
    nodes: Set<N>,
    edges: Seq<(N, N, i32)>,
    picks: Seq<usize>,
    other: Seq<usize>,
    t: int,
)
    requires
        nodes.finite(),
        is_greedy_forest(nodes, edges, picks),
        is_spanning_forest(nodes, edges, other),
    ensures
        count_light(taken(edges, other), t) <= count_light(taken(edges, picks), t),
{
    let own = taken(edges, picks);
    let theirs = taken(edges, other);
    lemma_greedy_spans(nodes, edges, picks);
    lemma_light_first(own, t);
    let m = count_light(own, t) as int;
    let first = own.take(m);
    let few = light(theirs, t);
    lemma_forest_prefix(nodes, own, m);
    lemma_light_forest(nodes, theirs, t);
    lemma_light(theirs, t);
    assert forall|k: int| 0 <= k < few.len() implies connected(
        forest_at(nodes, first, first.len() as int),
        (#[trigger] few[k]).0,
        few[k].1,
    ) by {
        let j = choose|j: int| 0 <= j < theirs.len() && theirs[j] == few[k];
        let i = other[j];
        assert(edges[i as int] == few[k]);
        assert(has_ends(nodes, theirs[j]));
        if picks.contains(i) {
            let at = choose|at: int| 0 <= at < picks.len() && picks[at] == i;
            assert(own[at] == few[k]);
            if at >= m {
                assert(own[at].2 > t);
            }
            assert(first[at] == own[at]);
            lemma_pick_connects(nodes, first, at);
        } else {
            let upto = choose|upto: int| closes_cycle(nodes, edges, picks, i as int, upto);
            if upto > m {
                assert(own[m].2 > t);
                assert(edges[picks[m] as int].2 <= edges[i as int].2);
            }
            lemma_forest_grows(nodes, own, upto, m, few[k].0, few[k].1);
        }
    }
    lemma_forest_rank(nodes, few, first);
}

/// The forest that Kruskal's algorithm builds is a minimum spanning forest:
/// it spans the graph, and no spanning forest of the graph weighs less.
pub proof fn lemma_greedy_is_minimum<N>(nodes: Set<N>, edges: Seq<(N, N, i32)>, picks: Seq<usize>)
    requires
        nodes.finite(),
        is_greedy_forest(nodes, edges, picks),
    ensures
        is_minimum_spanning_forest(nodes, edges, picks),
{
    let own = taken(edges, picks);
    lemma_greedy_spans(nodes, edges, picks);
    assert forall|other: Seq<usize>| #[trigger]
        is_spanning_forest(nodes, edges, other) implies total_weight(own) <= total_weight(
        taken(edges, other),
    ) by {
        let theirs = taken(edges, other);
        // both forests have as many edges
        assert forall|j: int| 0 <= j < own.len() implies connected(
            forest_at(nodes, theirs, theirs.len() as int),
            (#[trigger] own[j]).0,
            own[j].1,
        ) by {
            assert(has_ends(nodes, own[j]));
            assert(own[j] == edges[picks[j] as int]);
        }
        lemma_forest_rank(nodes, own, theirs);
        assert forall|j: int| 0 <= j < theirs.len() implies connected(
            forest_at(nodes, own, own.len() as int),
            (#[trigger] theirs[j]).0,
            theirs[j].1,
        ) by {
            assert(has_ends(nodes, theirs[j]));
            assert(theirs[j] == edges[other[j] as int]);
        }
        lemma_forest_rank(nodes, theirs, own);
        // and at every threshold, this one has the lighter edges
        assert forall|s: int| count_light(theirs, s) <= #[trigger] count_light(own, s) by {
            lemma_greedy_has_more_light(nodes, edges, picks, other, s);
        }
        lemma_fewer_pairs(own, theirs, i32::MIN as int, i32::MAX as int);
        lemma_weight_by_pairs(own, theirs, i32::MIN as int, i32::MAX as int);
    }
}

} // verus!

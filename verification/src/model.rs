//! The mathematical model of a graph: which vertices it has and, for each
//! vertex, its outgoing arcs in insertion order.

use vstd::prelude::*;

verus! {

/// The arc at position `i` of `arcs` is the first one that enters `v`.
pub open spec fn is_first_arc<N>(arcs: Seq<(N, i32)>, v: N, i: int) -> bool {
    &&& 0 <= i < arcs.len()
    &&& arcs[i].0 == v
    &&& forall|j: int| 0 <= j < i ==> (#[trigger] arcs[j]).0 != v
}

/// Some arc of `arcs` enters `v`.
pub open spec fn enters<N>(arcs: Seq<(N, i32)>, v: N) -> bool {
    exists|i: int| 0 <= i < arcs.len() && (#[trigger] arcs[i]).0 == v
}

/// The weight of the first arc of `arcs` that enters `v`.
pub open spec fn first_weight<N>(arcs: Seq<(N, i32)>, v: N) -> i32 {
    arcs[choose|i: int| is_first_arc(arcs, v, i)].1
}

/// The adjacency structure of a graph. The keys of `arcs` are the vertices;
/// each is mapped to its outgoing arcs, as (target, weight) pairs in the order
/// in which they were inserted. A target need not be a vertex.
#[verifier::reject_recursive_types(N)]
pub ghost struct Adjacency<N> {
    pub arcs: Map<N, Seq<(N, i32)>>,
}

impl<N> Adjacency<N> {
    /// The graph without vertices.
    pub open spec fn empty() -> Self {
        Adjacency { arcs: Map::empty() }
    }

    /// The vertices.
    pub open spec fn nodes(self) -> Set<N> {
        self.arcs.dom()
    }

    /// `v` is a vertex.
    pub open spec fn has_node(self, v: N) -> bool {
        self.arcs.contains_key(v)
    }

    /// The outgoing arcs of `v`; none when `v` is not a vertex.
    pub open spec fn out_arcs(self, v: N) -> Seq<(N, i32)> {
        if self.arcs.contains_key(v) {
            self.arcs[v]
        } else {
            Seq::empty()
        }
    }

    /// The targets of the outgoing arcs of `v`, in insertion order.
    pub open spec fn neighbours(self, v: N) -> Seq<N> {
        self.out_arcs(v).map_values(|a: (N, i32)| a.0)
    }

    /// The number of outgoing arcs of `v`.
    pub open spec fn degree(self, v: N) -> nat {
        self.out_arcs(v).len()
    }

    /// An arc leaves `u` and enters `v`.
    pub open spec fn has_arc(self, u: N, v: N) -> bool {
        enters(self.out_arcs(u), v)
    }

    /// The weight of the first arc from `u` to `v`.
    pub open spec fn arc_weight(self, u: N, v: N) -> i32
        recommends
            self.has_arc(u, v),
    {
        first_weight(self.out_arcs(u), v)
    }

    /// The graph after `v` is inserted, or overwritten: `v` is a vertex
    /// without outgoing arcs.
    pub open spec fn with_node(self, v: N) -> Self {
        Adjacency { arcs: self.arcs.insert(v, Seq::empty()) }
    }

    /// The graph after an arc from `u` to `v` of weight `w` is appended.
    /// Nothing changes when `u` is not a vertex.
    pub open spec fn with_arc(self, u: N, v: N, w: i32) -> Self {
        if self.arcs.contains_key(u) {
            Adjacency { arcs: self.arcs.insert(u, self.arcs[u].push((v, w))) }
        } else {
            self
        }
    }

    /// The graph after the two arcs of an undirected edge are appended.
    pub open spec fn with_edge(self, u: N, v: N, w: i32) -> Self {
        self.with_arc(u, v, w).with_arc(v, u, w)
    }

    /// Every arc has a weight of at least 0.
    pub open spec fn nonnegative(self) -> bool {
        forall|u: N, i: int|
            self.arcs.contains_key(u) && 0 <= i < self.arcs[u].len()
                ==> (#[trigger] self.arcs[u][i]).1
                >= 0
    }

    /// `p` is a walk: a nonempty sequence of vertices, each joined to the
    /// next by an arc.
    pub open spec fn is_walk(self, p: Seq<N>) -> bool {
        &&& p.len() >= 1
        &&& forall|i: int| 0 <= i < p.len() ==> self.has_node(#[trigger] p[i])
        &&& forall|i: int| 0 <= i < p.len() - 1 ==> self.has_arc(#[trigger] p[i], p[i + 1])
    }

    /// `p` is a walk from `s` to `t`.
    pub open spec fn is_walk_between(self, p: Seq<N>, s: N, t: N) -> bool {
        &&& self.is_walk(p)
        &&& p[0] == s
        &&& p[p.len() - 1] == t
    }

    /// The sum of the weights of the arcs that the walk `p` follows, where
    /// between two vertices the first arc inserted is the one followed.
    pub open spec fn walk_weight(self, p: Seq<N>) -> int
        decreases p.len(),
    {
        if p.len() <= 1 {
            0
        } else {
            self.walk_weight(p.drop_last()) + self.arc_weight(p[p.len() - 2], p[p.len() - 1])
        }
    }
}

/// At most one position holds the first arc that enters `v`.
pub proof fn lemma_first_arc_unique<N>(arcs: Seq<(N, i32)>, v: N, i: int, j: int)
    requires
        is_first_arc(arcs, v, i),
        is_first_arc(arcs, v, j),
    ensures
        i == j,
{
    if i < j {
        assert(arcs[i].0 != v);
    } else if j < i {
        assert(arcs[j].0 != v);
    }
}

/// The first arc that enters `v` fixes the weight between the two vertices.
pub proof fn lemma_first_weight<N>(arcs: Seq<(N, i32)>, v: N, i: int)
    requires
        is_first_arc(arcs, v, i),
    ensures
        enters(arcs, v),
        first_weight(arcs, v) == arcs[i].1,
{
    let k = choose|k: int| is_first_arc(arcs, v, k);
    lemma_first_arc_unique(arcs, v, i, k);
}

/// Appending an arc does not change the first arc that enters `v`, when one
/// exists already.
pub proof fn lemma_first_weight_push<N>(arcs: Seq<(N, i32)>, arc: (N, i32), v: N)
    ensures
        enters(arcs.push(arc), v) <==> enters(arcs, v) || arc.0 == v,
        enters(arcs, v) ==> first_weight(arcs.push(arc), v) == first_weight(arcs, v),
        !enters(arcs, v) && arc.0 == v ==> first_weight(arcs.push(arc), v) == arc.1,
{
    let longer = arcs.push(arc);
    if enters(arcs, v) {
        let i = lemma_enters_first(arcs, v);
        assert(longer[i].0 == v);
        assert(is_first_arc(longer, v, i)) by {
            assert forall|j: int| 0 <= j < i implies (#[trigger] longer[j]).0 != v by {
                assert(longer[j] == arcs[j]);
            }
        }
        lemma_first_weight(longer, v, i);
        lemma_first_weight(arcs, v, i);
    } else if arc.0 == v {
        let n = arcs.len() as int;
        assert(longer[n].0 == v);
        assert(is_first_arc(longer, v, n)) by {
            assert forall|j: int| 0 <= j < n implies (#[trigger] longer[j]).0 != v by {
                assert(longer[j] == arcs[j]);
            }
        }
        lemma_first_weight(longer, v, n);
    } else {
        if enters(longer, v) {
            let i = choose|i: int| 0 <= i < longer.len() && (#[trigger] longer[i]).0 == v;
            assert(longer[i] == arcs[i]);
        }
    }
}

/// When some arc enters `v`, a first such arc exists.
pub proof fn lemma_enters_first<N>(arcs: Seq<(N, i32)>, v: N) -> (i: int)
    requires
        enters(arcs, v),
    ensures
        is_first_arc(arcs, v, i),
    decreases arcs.len(),
{
    let k = choose|k: int| 0 <= k < arcs.len() && (#[trigger] arcs[k]).0 == v;
    lemma_least_entering(arcs, v, k)
}

/// Below any arc that enters `v` lies the first one that does.
proof fn lemma_least_entering<N>(arcs: Seq<(N, i32)>, v: N, k: int) -> (i: int)
    requires
        0 <= k < arcs.len(),
        arcs[k].0 == v,
    ensures
        is_first_arc(arcs, v, i),
        i <= k,
    decreases k,
{
    if exists|j: int| 0 <= j < k && (#[trigger] arcs[j]).0 == v {
        let j = choose|j: int| 0 <= j < k && (#[trigger] arcs[j]).0 == v;
        lemma_least_entering(arcs, v, j)
    } else {
        k
    }
}

/// Appending an arc makes its ends adjacent, keeps every other adjacency as
/// it was, and determines the weight between its ends where no arc joined
/// them before.
pub proof fn lemma_arc_inserted<N>(adj: Adjacency<N>, u: N, v: N, w: i32, x: N, y: N)
    requires
        adj.has_node(u),
    ensures
        adj.with_arc(u, v, w).has_arc(x, y) <==> adj.has_arc(x, y) || (x == u && y == v),
        adj.has_arc(x, y) ==> adj.with_arc(u, v, w).arc_weight(x, y) == adj.arc_weight(x, y),
        !adj.has_arc(u, v) ==> adj.with_arc(u, v, w).arc_weight(u, v) == w,
{
    let after = adj.with_arc(u, v, w);
    if x == u {
        lemma_first_weight_push(adj.out_arcs(u), (v, w), y);
        assert(after.out_arcs(u) == adj.out_arcs(u).push((v, w)));
    } else {
        assert(after.out_arcs(x) == adj.out_arcs(x));
    }
    lemma_first_weight_push(adj.out_arcs(u), (v, w), v);
    assert(after.out_arcs(u) == adj.out_arcs(u).push((v, w)));
}

} // verus!

//! The disjoint-set forest that Kruskal's algorithm consults, kept by the
//! `disjoint_set` crate. Its behaviour is taken on trust: the contracts below
//! restate what the crate's source does, and nothing here proves them.

use vstd::prelude::*;
use disjoint_set::DisjointSet;

verus! {

/// `disjoint_set::DisjointSet`, taken as an opaque type.
#[verifier::external_type_specification]
#[verifier::external_body]
#[verifier::reject_recursive_types(T)]
pub struct ExDisjointSet<T: Clone>(DisjointSet<T>);

/// The partition that a forest over `usize` elements holds: each element is
/// mapped to the tag of the subset it lies in. Two elements lie in the same
/// subset exactly when their tags are equal.
pub uninterp spec fn subsets(forest: DisjointSet<usize>) -> Map<usize, usize>;

/// The partition after the subset tagged `from` is absorbed by the one
/// tagged `into`.
pub open spec fn merged(partition: Map<usize, usize>, from: usize, into: usize) -> Map<
    usize,
    usize,
> {
    Map::new(
        |x: usize| partition.contains_key(x),
        |x: usize|
            if partition[x] == from {
                into
            } else {
                partition[x]
            },
    )
}

/// `DisjointSet::new`: a forest without elements.
#[verifier::external_body]
pub(crate) fn forest_new() -> (made: DisjointSet<usize>)
    ensures
        subsets(made).dom() == Set::<usize>::empty(),
{
    DisjointSet::new()
}

/// `DisjointSet::make_set`: an element that the forest does not hold yet
/// becomes a subset of its own, under a tag that no other element has; an
/// element that it holds already changes nothing.
#[verifier::external_body]
pub(crate) fn forest_make_set(forest: &mut DisjointSet<usize>, x: usize)
    ensures
        subsets(*final(forest)).dom() == subsets(*old(forest)).dom().insert(x),
        forall|y: usize|
            subsets(*old(forest)).contains_key(y) ==> #[trigger] subsets(*final(forest))[y]
                == subsets(*old(forest))[y],
        !subsets(*old(forest)).contains_key(x) ==> forall|y: usize|
            subsets(*old(forest)).contains_key(y) ==> #[trigger] subsets(*old(forest))[y]
                != subsets(*final(forest))[x],
{
    forest.make_set(x)
}

/// `DisjointSet::find`: the tag of the subset in which `x` lies, or `None`
/// when the forest does not hold `x`. The partition stays as it is.
#[verifier::external_body]
pub(crate) fn forest_find(forest: &mut DisjointSet<usize>, x: usize) -> (tag: Option<usize>)
    ensures
        subsets(*final(forest)) == subsets(*old(forest)),
        tag == if subsets(*old(forest)).contains_key(x) {
            Some(subsets(*old(forest))[x])
        } else {
            None::<usize>
        },
{
    forest.find(x)
}

/// `DisjointSet::union`: the subset of `x` is absorbed by the subset of `y`,
/// whose tag is returned. Fails, changing nothing, when the forest does not
/// hold both.
#[verifier::external_body]
pub(crate) fn forest_union(forest: &mut DisjointSet<usize>, x: usize, y: usize) -> (r: Result<
    usize,
    (),
>)
    ensures
        match r {
            Ok(tag) => {
                &&& subsets(*old(forest)).contains_key(x)
                &&& subsets(*old(forest)).contains_key(y)
                &&& tag == subsets(*old(forest))[y]
                &&& subsets(*final(forest)) == merged(
                    subsets(*old(forest)),
                    subsets(*old(forest))[x],
                    subsets(*old(forest))[y],
                )
            },
            Err(_) => {
                &&& !(subsets(*old(forest)).contains_key(x) && subsets(*old(forest)).contains_key(
                    y,
                ))
                &&& subsets(*final(forest)) == subsets(*old(forest))
            },
        },
{
    forest.union(x, y)
}

} // verus!

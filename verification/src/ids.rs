//! Assumptions on vertex identifiers.
//!
//! Vertex identifiers are opaque keys that can be compared, hashed and cloned.
//! The algorithms are only meaningful when these three operations agree with
//! mathematical equality; `id_model` states that agreement once, and every
//! contract of the library that depends on it names it in its `requires`.

use vstd::prelude::*;
use std::hash::Hash;
use vstd::std_specs::hash::obeys_key_model;
use vstd::laws_eq::obeys_concrete_eq;

verus! {

/// Cloning a value of type `T` yields an equal value.
pub open spec fn clone_model<T: Clone>() -> bool {
    forall|a: T, b: T| #[trigger] cloned(a, b) ==> a == b
}

/// `N` can serve as a vertex identifier: it hashes deterministically, its
/// executable `==` is mathematical equality, and the clone of a value is
/// equal to the value.
pub open spec fn id_model<N: Eq + Hash + Clone>() -> bool {
    &&& obeys_key_model::<N>()
    &&& obeys_concrete_eq::<N>()
    &&& clone_model::<N>()
}

/// Compares two identifiers.
pub fn same_id<N: Eq + Hash + Clone>(a: &N, b: &N) -> (r: bool)
    requires
        id_model::<N>(),
    ensures
        r == (*a == *b),
{
    proof {
        reveal(obeys_concrete_eq);
    }
    *a == *b
}

/// Clones a value of a type whose clones are equal to what was cloned.
pub fn clone_value<T: Clone>(a: &T) -> (r: T)
    requires
        clone_model::<T>(),
    ensures
        r == *a,
{
    let c = a.clone();
    assert(cloned(*a, c));
    c
}

/// Clones a vector of identifiers, element by element.
pub fn clone_ids<N: Eq + Hash + Clone>(ids: &Vec<N>) -> (r: Vec<N>)
    requires
        id_model::<N>(),
    ensures
        r@ == ids@,
{
    let mut out: Vec<N> = Vec::new();
    let mut i: usize = 0;
    while i < ids.len()
        invariant
            id_model::<N>(),
            i <= ids.len(),
            out@ == ids@.take(i as int),
        decreases ids.len() - i,
    {
        out.push(clone_value(&ids[i]));
        assert(ids@.take(i + 1) =~= ids@.take(i as int).push(ids@[i as int]));
        i += 1;
    }
    assert(ids@.take(ids.len() as int) =~= ids@);
    out
}

} // verus!

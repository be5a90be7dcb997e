//! The capability that every concrete edge type provides.

use vstd::prelude::*;
use crate::ids::clone_model;

verus! {

/// An arc from a source to a target, with an integer weight and a
/// directedness flag.
pub trait Edge<N: Clone>: Sized {
    /// The vertex the edge leaves.
    spec fn spec_source(&self) -> N;

    /// The vertex the edge enters.
    spec fn spec_target(&self) -> N;

    /// The weight the edge carries.
    spec fn spec_weight(&self) -> i32;

    /// Whether the edge is directed.
    spec fn spec_directed(&self) -> bool;

    /// The weight that an edge built with `new` carries when `weight` is
    /// asked for. Weighted edges keep it; unit-weight edges replace it by 1.
    spec fn stored_weight(weight: i32) -> i32;

    /// Storing a weight that has been stored before leaves it as it is: an
    /// edge that is built from the weight of another carries the same
    /// weight.
    proof fn lemma_stored_weight_settles(weight: i32)
        ensures
            Self::stored_weight(Self::stored_weight(weight)) == Self::stored_weight(weight),
    ;

    /// Builds an edge.
    fn new(source: N, target: N, weight: i32, directed: bool) -> (e: Self)
        ensures
            e.spec_source() == source,
            e.spec_target() == target,
            e.spec_weight() == Self::stored_weight(weight),
            e.spec_directed() == directed,
    ;

    /// The weight of the edge.
    fn get_weight(&self) -> (w: i32)
        ensures
            w == self.spec_weight(),
    ;

    /// The source of the edge.
    fn get_source(&self) -> (s: N)
        requires
            clone_model::<N>(),
        ensures
            s == self.spec_source(),
    ;

    /// The target of the edge.
    fn get_target(&self) -> (t: N)
        requires
            clone_model::<N>(),
        ensures
            t == self.spec_target(),
    ;

    /// Whether the edge is directed.
    fn is_directed(&self) -> (d: bool)
        ensures
            d == self.spec_directed(),
    ;
}

} // verus!

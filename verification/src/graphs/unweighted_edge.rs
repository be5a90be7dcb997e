//! An edge of unit weight.

use vstd::prelude::*;
use vstd::std_specs::cmp::{PartialEqSpec, PartialEqSpecImpl};
use crate::edge::Edge;
use crate::ids::{clone_model, clone_value};

verus! {

/// An edge whose weight is always 1: the weight handed to `new` is ignored.
#[derive(Debug, Hash)]
pub struct UnweightedEdge<N> {
    source: N,
    target: N,
    weight: i32,
    directed: bool,
}

impl<N: Clone> Edge<N> for UnweightedEdge<N> {
    closed spec fn spec_source(&self) -> N {
        self.source
    }

    closed spec fn spec_target(&self) -> N {
        self.target
    }

    closed spec fn spec_weight(&self) -> i32 {
        self.weight
    }

    closed spec fn spec_directed(&self) -> bool {
        self.directed
    }

    open spec fn stored_weight(weight: i32) -> i32 {
        1
    }

    proof fn lemma_stored_weight_settles(weight: i32) {
    }

    fn new(source: N, target: N, weight: i32, directed: bool) -> (e: Self) {
        UnweightedEdge { source: source, target: target, weight: 1, directed: directed }
    }

    fn get_weight(&self) -> (w: i32) {
        self.weight
    }

    fn get_source(&self) -> (s: N) {
        clone_value(&self.source)
    }

    fn get_target(&self) -> (t: N) {
        clone_value(&self.target)
    }

    fn is_directed(&self) -> (d: bool) {
        self.directed
    }
}

impl<N: Clone> Clone for UnweightedEdge<N> {
    fn clone(&self) -> (r: Self)
        ensures
            clone_model::<N>() ==> r == *self,
    {
        let source = self.source.clone();
        let target = self.target.clone();
        proof {
            assert(cloned(self.source, source));
            assert(cloned(self.target, target));
        }
        UnweightedEdge { source, target, weight: self.weight, directed: self.directed }
    }
}

impl<N: PartialEq> PartialEq for UnweightedEdge<N> {
    fn eq(&self, other: &UnweightedEdge<N>) -> (r: bool) {
        self.source == other.source && self.target == other.target && self.weight == other.weight
            && self.directed == other.directed
    }
}

impl<N: PartialEq> PartialEqSpecImpl for UnweightedEdge<N> {
    open spec fn obeys_eq_spec() -> bool {
        N::obeys_eq_spec()
    }

    closed spec fn eq_spec(&self, other: &UnweightedEdge<N>) -> bool {
        self.source.eq_spec(&other.source) && self.target.eq_spec(&other.target) && self.weight
            == other.weight && self.directed == other.directed
    }
}

impl<N: Eq> Eq for UnweightedEdge<N> {}

} // verus!

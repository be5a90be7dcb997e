//! The result of the shortest-path family of algorithms.

use vstd::prelude::*;
use crate::ids::clone_model;

verus! {

/// What a `GraphPath` holds, as mathematical values.
pub ghost struct PathModel<N> {
    /// The total weight of the path.
    pub distance: i32,
    /// The vertices of the path, from its source to its target.
    pub path: Seq<N>,
}

/// A path in a graph: the vertex identifiers in order of visitation, and the
/// total distance.
#[derive(Debug)]
pub struct GraphPath<N> {
    distance: i32,
    path: Vec<N>,
}

impl<N> View for GraphPath<N> {
    type V = PathModel<N>;

    closed spec fn view(&self) -> PathModel<N> {
        PathModel { distance: self.distance, path: self.path@ }
    }
}

impl<N> GraphPath<N> {
    /// The empty path: no vertices, distance 0.
    pub fn new() -> (p: GraphPath<N>)
        ensures
            p@ == (PathModel { distance: 0, path: Seq::<N>::empty() }),
    {
        GraphPath { distance: 0, path: Vec::new() }
    }

    /// Replaces the distance.
    pub fn set_distance(&mut self, distance: i32)
        ensures
            final(self)@ == (PathModel { distance: distance, path: old(self)@.path }),
    {
        self.distance = distance;
    }

    /// Replaces the vertex sequence.
    pub fn set_path(&mut self, path: Vec<N>)
        ensures
            final(self)@ == (PathModel { distance: old(self)@.distance, path: path@ }),
    {
        self.path = path;
    }

    /// The distance of the path.
    pub fn get_distance(&self) -> (d: i32)
        ensures
            d == self@.distance,
    {
        self.distance
    }

    /// The vertices of the path, in order of visitation.
    pub fn get_path(&self) -> (p: &Vec<N>)
        ensures
            p@ == self@.path,
    {
        &self.path
    }
}

impl<N> Default for GraphPath<N> {
    /// The empty path.
    fn default() -> (p: GraphPath<N>)
        ensures
            p@ == (PathModel { distance: 0, path: Seq::<N>::empty() }),
    {
        GraphPath::new()
    }
}

impl<N: Clone> Clone for GraphPath<N> {
    fn clone(&self) -> (r: Self)
        ensures
            clone_model::<N>() ==> r@ == self@,
    {
        let mut path: Vec<N> = Vec::new();
        let mut i: usize = 0;
        while i < self.path.len()
            invariant
                i <= self.path.len(),
                path@.len() == i,
                clone_model::<N>() ==> path@ == self.path@.take(i as int),
            decreases self.path.len() - i,
        {
            let c = self.path[i].clone();
            proof {
                assert(cloned(self.path@[i as int], c));
                assert(self.path@.take(i + 1) =~= self.path@.take(i as int).push(
                    self.path@[i as int],
                ));
            }
            path.push(c);
            i += 1;
        }
        assert(self.path@.take(self.path.len() as int) =~= self.path@);
        GraphPath { distance: self.distance, path }
    }
}

} // verus!

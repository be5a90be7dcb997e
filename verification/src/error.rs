//! The failures that graph operations report.

use vstd::prelude::*;

verus! {

/// Why a graph operation failed.
#[derive(Debug, Clone, Copy, PartialEq, Eq, Structural)]
pub enum GraphError {
    /// The operation named a vertex that is not in the graph.
    InvalidVertex,
    /// There is no arc between the two vertices.
    NoEdge,
    /// Per-run bookkeeping is out of step with the vertices it describes:
    /// a vertex has no record, or predecessor links do not lead anywhere.
    MetadataInconsistency,
    /// The target cannot be reached from the source (or only at a distance
    /// that does not fit below the "infinite" sentinel).
    Unreachable,
}

impl GraphError {
    /// A short description of the failure.
    pub fn message(&self) -> (s: &'static str)
        ensures
            s@.len() > 0,
    {
        match self {
            GraphError::InvalidVertex => {
                let s = "the vertex does not exist in the graph";
                proof { reveal_strlit("the vertex does not exist in the graph"); }
                s
            },
            GraphError::NoEdge => {
                let s = "no edge exists between the vertices";
                proof { reveal_strlit("no edge exists between the vertices"); }
                s
            },
            GraphError::MetadataInconsistency => {
                let s = "the metadata of the run is inconsistent";
                proof { reveal_strlit("the metadata of the run is inconsistent"); }
                s
            },
            GraphError::Unreachable => {
                let s = "the target cannot be reached from the source";
                proof { reveal_strlit("the target cannot be reached from the source"); }
                s
            },
        }
    }
}

} // verus!

//! A generic graph library: an abstract graph capability, adjacency-list
//! graphs that provide it, and a suite of verified graph algorithms written
//! once against the capability (Dijkstra's shortest paths, the diameter, the
//! k-core decomposition and Kruskal's minimum spanning tree).
//!
//! Each graph is modelled by its adjacency structure (`model::Adjacency`):
//! the vertices, and for each vertex its outgoing arcs in insertion order.
//! The contracts of the operations and of the algorithms are stated over
//! that model.

pub mod ids;
pub mod error;
pub mod model;
pub mod path;
pub mod walks;
pub mod edge;
pub mod topology;
pub mod buckets;
pub mod weights;
pub mod dijkstra;
pub mod dijkstra_run;
pub mod dijkstra_reach;
pub mod shortest_paths;
pub mod kcore;
pub mod kcore_run;
pub mod cores;
pub mod forest;
pub mod kruskal;
pub mod kruskal_run;
pub mod spanning;
pub mod minimality;
pub mod graph;
pub mod graphs;
pub mod laws;

pub use crate::edge::Edge;
pub use crate::error::GraphError;
pub use crate::graph::Graph;
pub use crate::path::GraphPath;
pub use crate::topology::Topology;

//! Default implementations of graphs and edges.

pub mod weighted_edge;
pub mod unweighted_edge;
pub mod undirected_adjacency_list_graph;
pub mod adj_list_graph;

pub use self::weighted_edge::WeightedEdge;
pub use self::unweighted_edge::UnweightedEdge;
pub use self::undirected_adjacency_list_graph::UndirectedAdjacencyListGraph;
pub use self::adj_list_graph::AdjListGraph;
pub use self::adj_list_graph::KCoreDecomposition;

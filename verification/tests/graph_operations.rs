use graph::graphs::AdjListGraph;
use graph::graphs::UndirectedAdjacencyListGraph;
use graph::graphs::UnweightedEdge;
use graph::graphs::WeightedEdge;
use graph::Edge;
use graph::Graph;
use graph::GraphError;
use graph::GraphPath;

fn weighted() -> UndirectedAdjacencyListGraph<i32, WeightedEdge<i32>> {
    Graph::new()
}

#[test]
fn vertex_is_present_after_insertion_and_stays() {
    let mut graph: AdjListGraph<i32, &str> = AdjListGraph::new();
    assert!(!graph.is_id_in_graph(&7));
    graph.add_vertex(7, "seven");
    assert!(graph.is_id_in_graph(&7));
    graph.add_vertex(8, "eight");
    graph.add_edge(7, 8);
    graph.add_edge_with_weight(8, 7, 4);
    graph.add_undirected_edge(7, 8);
    graph.add_undirected_edge_with_weight(7, 9, 2);
    assert!(graph.is_id_in_graph(&7));
    assert!(graph.is_id_in_graph(&8));
    assert!(!graph.is_id_in_graph(&9));
}

#[test]
fn node_is_present_after_insertion_and_stays() {
    let mut graph = weighted();
    graph.add_node(1);
    assert!(graph.is_node_in_graph(&1));
    graph.add_node(2);
    graph.add_edge(1, 2, 3);
    graph.add_edge(1, 5, 3);
    assert!(graph.is_node_in_graph(&1));
    assert!(graph.is_node_in_graph(&2));
    assert!(!graph.is_node_in_graph(&5));
}

#[test]
fn undirected_insertion_is_adjacent_both_ways_with_its_weight() {
    let mut graph: AdjListGraph<u8, ()> = AdjListGraph::new();
    graph.add_vertex(1, ());
    graph.add_vertex(2, ());
    graph.add_undirected_edge_with_weight(1, 2, 9);
    assert!(graph.is_adjacent(&1, &2));
    assert!(graph.is_adjacent(&2, &1));
    assert_eq!(graph.get_edge_weight(&1, &2), Ok(9));
    assert_eq!(graph.get_edge_weight(&2, &1), Ok(9));
}

#[test]
fn undirected_insertion_in_the_edge_graph() {
    let mut graph = weighted();
    graph.add_node(1);
    graph.add_node(2);
    graph.add_edge(1, 2, 9);
    assert!(graph.is_adjacent(&1, &2));
    assert!(graph.is_adjacent(&2, &1));
    assert_eq!(graph.get_edge(&1, &2).unwrap().get_weight(), 9);
    assert_eq!(graph.get_edge(&2, &1).unwrap().get_weight(), 9);
    let back = graph.get_edge(&2, &1).unwrap();
    assert_eq!(back.get_source(), 2);
    assert_eq!(back.get_target(), 1);
    assert!(!back.is_directed());
}

#[test]
fn first_arc_decides_the_weight() {
    let mut graph: AdjListGraph<i32, ()> = AdjListGraph::new();
    graph.add_vertex(1, ());
    graph.add_vertex(2, ());
    graph.add_edge_with_weight(1, 2, 5);
    graph.add_undirected_edge_with_weight(1, 2, 9);
    assert_eq!(graph.get_edge_weight(&1, &2), Ok(5));
    assert_eq!(graph.get_edge_weight(&2, &1), Ok(9));
    assert_eq!(graph.get_vertex_neighbours(&1), vec![2, 2]);

    let mut edges = weighted();
    edges.add_node(1);
    edges.add_node(2);
    edges.add_edge(1, 2, 5);
    edges.add_edge(1, 2, 9);
    assert_eq!(edges.get_edge(&1, &2).unwrap().get_weight(), 5);
    assert_eq!(edges.get_node_neighbours(&1), vec![2, 2]);
    assert_eq!(edges.degree(&1), Ok(2));
}

#[test]
fn unweighted_arcs_weigh_one() {
    let mut graph: AdjListGraph<i32, ()> = AdjListGraph::new();
    graph.add_vertex(1, ());
    graph.add_vertex(2, ());
    graph.add_edge(1, 2);
    assert_eq!(graph.get_edge_weight(&1, &2), Ok(1));
    assert!(!graph.is_adjacent(&2, &1));
    graph.add_undirected_edge(2, 1);
    assert_eq!(graph.get_edge_weight(&2, &1), Ok(1));

    let edge: UnweightedEdge<i32> = Edge::new(3, 4, 17, true);
    assert_eq!(edge.get_weight(), 1);
    assert_eq!(edge.get_source(), 3);
    assert_eq!(edge.get_target(), 4);
    assert!(edge.is_directed());

    let mut edges: UndirectedAdjacencyListGraph<i32, UnweightedEdge<i32>> = Graph::new();
    edges.add_node(1);
    edges.add_node(2);
    edges.add_edge(1, 2, 40);
    assert_eq!(edges.get_edge(&1, &2).unwrap().get_weight(), 1);
}

#[test]
fn weighted_edge_keeps_what_it_was_given() {
    let edge: WeightedEdge<i32> = Edge::new(3, 4, -17, false);
    assert_eq!(edge.get_weight(), -17);
    assert_eq!(edge.get_source(), 3);
    assert_eq!(edge.get_target(), 4);
    assert!(!edge.is_directed());
    let copy = edge.clone();
    assert!(copy == edge);
    let other: WeightedEdge<i32> = Edge::new(3, 4, -17, true);
    assert!(other != edge);
}

#[test]
fn edge_with_a_missing_end_is_tolerated() {
    let mut graph: AdjListGraph<i32, ()> = AdjListGraph::new();
    graph.add_vertex(1, ());
    // the source is absent: nothing happens
    graph.add_edge_with_weight(2, 1, 3);
    assert!(!graph.is_adjacent(&2, &1));
    assert!(!graph.is_id_in_graph(&2));
    assert_eq!(graph.vertex_degree(&1), Ok(0));
    // the target is absent: the arc is recorded all the same
    graph.add_edge_with_weight(1, 2, 3);
    assert!(graph.is_adjacent(&1, &2));
    assert_eq!(graph.get_vertex_neighbours(&1), vec![2]);
    assert!(!graph.is_id_in_graph(&2));

    let mut edges = weighted();
    edges.add_node(1);
    edges.add_edge(1, 2, 3);
    edges.add_edge(8, 9, 3);
    assert!(edges.is_adjacent(&1, &2));
    assert!(!edges.is_adjacent(&2, &1));
    assert!(!edges.is_node_in_graph(&2));
    assert_eq!(edges.get_edges().len(), 2);
    assert_eq!(edges.get_nodes(), vec![1]);
}

#[test]
fn inserting_a_vertex_again_overwrites_it() {
    let mut graph: AdjListGraph<i32, &str> = AdjListGraph::new();
    graph.add_vertex(1, "first");
    graph.add_vertex(2, "other");
    graph.add_edge(1, 2);
    assert_eq!(graph.get_vertex_data(&1), Some(&"first"));
    graph.add_vertex(1, "second");
    assert_eq!(graph.get_vertex_data(&1), Some(&"second"));
    assert_eq!(graph.get_vertex_data(&3), None);
    assert!(!graph.is_adjacent(&1, &2));
    assert_eq!(graph.vertex_degree(&1), Ok(0));
    let mut ids = graph.get_vertex_ids();
    ids.sort();
    assert_eq!(ids, vec![1, 2]);

    let mut edges = weighted();
    edges.add_node(1);
    edges.add_node(2);
    edges.add_edge(1, 2, 3);
    edges.add_node(1);
    assert!(!edges.is_adjacent(&1, &2));
    assert!(edges.is_adjacent(&2, &1));
    assert_eq!(edges.degree(&1), Ok(0));
}

#[test]
fn queries_repeat_their_answers() {
    let mut graph = weighted();
    graph.add_node(1);
    graph.add_node(2);
    graph.add_node(3);
    graph.add_edge(1, 2, 4);
    graph.add_edge(1, 3, 5);
    assert_eq!(graph.get_node_neighbours(&1), graph.get_node_neighbours(&1));
    assert_eq!(graph.get_node_neighbours(&1), vec![2, 3]);
    assert_eq!(graph.degree(&1), graph.degree(&1));
    assert_eq!(graph.degree(&9), graph.degree(&9));
    assert_eq!(graph.is_adjacent(&1, &2), graph.is_adjacent(&1, &2));
    assert_eq!(graph.is_adjacent(&2, &3), graph.is_adjacent(&2, &3));

    let mut other: AdjListGraph<i32, ()> = AdjListGraph::new();
    other.add_vertex(1, ());
    other.add_vertex(2, ());
    other.add_undirected_edge(1, 2);
    assert_eq!(other.get_vertex_neighbours(&1), other.get_vertex_neighbours(&1));
    assert_eq!(other.vertex_degree(&1), other.vertex_degree(&1));
    assert_eq!(other.is_adjacent(&1, &2), other.is_adjacent(&1, &2));
    assert_eq!(other.get_edge_weight(&1, &2), other.get_edge_weight(&1, &2));
}

#[test]
fn lookups_fail_explicitly() {
    let mut graph = weighted();
    graph.add_node(1);
    graph.add_node(2);
    assert_eq!(graph.get_edge(&1, &2).err(), Some(GraphError::NoEdge));
    assert_eq!(graph.get_edge(&5, &2).err(), Some(GraphError::InvalidVertex));
    assert_eq!(graph.degree(&5), Err(GraphError::InvalidVertex));
    assert_eq!(graph.degree(&1), Ok(0));
    assert!(graph.get_node_neighbours(&5).is_empty());
    assert!(graph.get_node_neighbours(&1).is_empty());

    let mut other: AdjListGraph<i32, ()> = AdjListGraph::new_with_capacity(4);
    other.add_vertex(1, ());
    assert_eq!(other.get_edge_weight(&1, &2), Err(GraphError::NoEdge));
    assert_eq!(other.get_edge_weight(&3, &2), Err(GraphError::NoEdge));
    assert_eq!(other.vertex_degree(&3), Err(GraphError::InvalidVertex));
    assert!(other.get_vertex_neighbours(&3).is_empty());
}

#[test]
fn every_error_has_a_message() {
    assert!(!GraphError::InvalidVertex.message().is_empty());
    assert!(!GraphError::NoEdge.message().is_empty());
    assert!(!GraphError::MetadataInconsistency.message().is_empty());
    assert!(!GraphError::Unreachable.message().is_empty());
    assert_ne!(GraphError::InvalidVertex.message(), GraphError::NoEdge.message());
}

#[test]
fn graph_path_holds_what_it_is_given() {
    let mut path: GraphPath<i32> = GraphPath::new();
    assert_eq!(path.get_distance(), 0);
    assert!(path.get_path().is_empty());
    path.set_distance(12);
    path.set_path(vec![4, 5, 6]);
    assert_eq!(path.get_distance(), 12);
    assert_eq!(path.get_path(), &vec![4, 5, 6]);
    let copy = path.clone();
    assert_eq!(copy.get_distance(), 12);
    assert_eq!(copy.get_path(), &vec![4, 5, 6]);
}

#[test]
fn edges_are_listed_in_insertion_order() {
    let mut graph = weighted();
    graph.add_node(1);
    graph.add_node(2);
    graph.add_node(3);
    graph.add_edge(1, 2, 4);
    graph.add_edge(3, 1, 5);
    let edges = graph.get_edges();
    assert_eq!(edges.len(), 2);
    assert_eq!((edges[0].get_source(), edges[0].get_target(), edges[0].get_weight()), (1, 2, 4));
    assert_eq!((edges[1].get_source(), edges[1].get_target(), edges[1].get_weight()), (3, 1, 5));
    let mut nodes = graph.get_nodes();
    nodes.sort();
    assert_eq!(nodes, vec![1, 2, 3]);
}

#[test]
fn copies_of_graphs_and_paths() {
    let mut graph = weighted();
    graph.add_node(1);
    graph.add_node(2);
    graph.add_edge(1, 2, 3);
    let copy = graph.clone();
    graph.add_node(3);
    assert!(copy.is_adjacent(&1, &2));
    assert_eq!(copy.get_edges().len(), 1);
    assert!(!copy.is_node_in_graph(&3));

    let mut other: AdjListGraph<i32, String> = AdjListGraph::new();
    other.add_vertex(1, String::from("one"));
    other.add_vertex(2, String::from("two"));
    other.add_edge_with_weight(1, 2, 8);
    let copy = other.clone();
    other.add_vertex(1, String::from("again"));
    assert_eq!(copy.get_vertex_data(&1), Some(&String::from("one")));
    assert_eq!(copy.get_edge_weight(&1, &2), Ok(8));

    let empty: GraphPath<u8> = Default::default();
    assert_eq!(empty.get_distance(), 0);
    assert!(empty.get_path().is_empty());
}

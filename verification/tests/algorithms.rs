use graph::buckets::add_to_bucket;
use graph::buckets::get_next_vertex;
use graph::buckets::remove_from_bucket;
use graph::dijkstra::backtrack_vertex_predecessor;
use graph::dijkstra::create_dijkstra_metadata;
use graph::dijkstra::get_min_distance;
use graph::dijkstra::mark_visited;
use graph::dijkstra::relax_arc;
use graph::dijkstra::remove_from_list;
use graph::dijkstra::MetadataDijkstra;
use graph::shortest_paths::perform_edge_relaxation;
use graph::graphs::UndirectedAdjacencyListGraph;
use graph::graphs::UnweightedEdge;
use graph::graphs::WeightedEdge;
use graph::Edge;
use graph::Graph;
use graph::GraphError;
use graph::Topology;
use std::collections::HashMap;
use std::collections::HashSet;

fn weighted(
    nodes: &[i32],
    edges: &[(i32, i32, i32)],
) -> UndirectedAdjacencyListGraph<i32, WeightedEdge<i32>> {
    let mut graph: UndirectedAdjacencyListGraph<i32, WeightedEdge<i32>> = Graph::new();
    for n in nodes {
        graph.add_node(*n);
    }
    for (s, t, w) in edges {
        graph.add_edge(*s, *t, *w);
    }
    graph
}

fn record(predecessor: Option<i32>, visited: bool, distance: i32) -> MetadataDijkstra<i32> {
    MetadataDijkstra { predecessor, visited, distance }
}

#[test]
fn shortest_path_lists_the_vertices_in_order() {
    let mut graph: UndirectedAdjacencyListGraph<i32, UnweightedEdge<i32>> = Graph::new();
    for n in 1..5 {
        graph.add_node(n);
    }
    graph.add_edge(1, 2, 0);
    graph.add_edge(1, 3, 0);
    graph.add_edge(3, 4, 0);
    let path = graph.dijkstras_shortest_path(&2, &3).unwrap();
    assert_eq!(path.get_distance(), 2);
    assert_eq!(path.get_path(), &vec![2, 1, 3]);
}

#[test]
fn direct_edge_beats_the_detour() {
    let graph = weighted(&[1, 2, 3, 4], &[(1, 2, 5), (1, 3, 10), (3, 4, 3), (2, 3, 6)]);
    let path = graph.dijkstras_shortest_path(&2, &3).unwrap();
    assert_eq!(path.get_distance(), 6);
    assert_eq!(path.get_path(), &vec![2, 3]);
    let longer = graph.dijkstras_shortest_path(&2, &4).unwrap();
    assert_eq!(longer.get_distance(), 9);
    assert_eq!(longer.get_path(), &vec![2, 3, 4]);
}

#[test]
fn path_to_the_source_itself() {
    let graph = weighted(&[1, 2, 3], &[(1, 2, 5), (2, 3, 1)]);
    for source in 1..4 {
        let paths = graph.dijkstras_shortest_paths(&source).unwrap();
        assert_eq!(paths.len(), 3);
        assert_eq!(paths.get(&source).unwrap().get_distance(), 0);
        assert_eq!(paths.get(&source).unwrap().get_path(), &vec![source]);
    }
    let same = graph.dijkstras_shortest_path(&2, &2).unwrap();
    assert_eq!(same.get_distance(), 0);
    assert_eq!(same.get_path(), &vec![2]);
}

#[test]
fn shortest_paths_fail_on_unknown_vertices() {
    let graph = weighted(&[1, 2], &[(1, 2, 5)]);
    assert_eq!(graph.dijkstras_shortest_path(&1, &9).err(), Some(GraphError::InvalidVertex));
    assert_eq!(graph.dijkstras_shortest_path(&9, &1).err(), Some(GraphError::InvalidVertex));
    assert_eq!(graph.dijkstras_shortest_paths(&9).err(), Some(GraphError::InvalidVertex));
}

#[test]
fn shortest_paths_fail_where_nothing_leads() {
    let graph = weighted(&[1, 2, 3], &[(1, 2, 5)]);
    assert_eq!(graph.dijkstras_shortest_path(&1, &3).err(), Some(GraphError::Unreachable));
    assert_eq!(graph.dijkstras_shortest_path(&3, &1).err(), Some(GraphError::Unreachable));
    assert_eq!(graph.dijkstras_shortest_path(&1, &2).unwrap().get_distance(), 5);
    assert_eq!(graph.dijkstras_shortest_paths(&1).err(), Some(GraphError::Unreachable));
    assert_eq!(graph.diameter_path().err(), Some(GraphError::Unreachable));
}

#[test]
fn arcs_to_absent_vertices_are_passed_over() {
    let graph = weighted(&[1, 2], &[(1, 7, 1), (1, 2, 5)]);
    let path = graph.dijkstras_shortest_path(&1, &2).unwrap();
    assert_eq!(path.get_distance(), 5);
    assert_eq!(path.get_path(), &vec![1, 2]);
    let cores = graph.k_core_decomposition();
    assert_eq!(cores.values().map(|list| list.len()).sum::<usize>(), 2);
}

#[test]
fn distances_that_do_not_fit_count_as_unreachable() {
    let graph = weighted(&[1, 2, 3], &[(1, 2, i32::MAX - 1), (2, 3, 1)]);
    assert_eq!(graph.dijkstras_shortest_path(&1, &2).unwrap().get_distance(), i32::MAX - 1);
    assert_eq!(graph.dijkstras_shortest_path(&1, &3).err(), Some(GraphError::Unreachable));
}

#[test]
fn diameter_of_small_graphs() {
    let empty = weighted(&[], &[]);
    let nothing = empty.diameter_path().unwrap();
    assert_eq!(nothing.get_distance(), 0);
    assert!(nothing.get_path().is_empty());

    let single = weighted(&[5], &[]);
    let stay = single.diameter_path().unwrap();
    assert_eq!(stay.get_distance(), 0);
    assert_eq!(stay.get_path(), &vec![5]);

    let graph = weighted(&[1, 2, 3, 4], &[(1, 2, 5), (1, 3, 10), (3, 4, 3), (2, 3, 6)]);
    let diameter = graph.diameter_path().unwrap();
    assert_eq!(diameter.get_distance(), 13);
    let path = diameter.get_path().clone();
    assert!(path == vec![1, 3, 4] || path == vec![4, 3, 1]);
}

#[test]
fn metadata_starts_at_infinity_except_for_the_source() {
    let metadata = create_dijkstra_metadata(&vec![1, 2, 3], &2).unwrap();
    assert_eq!(metadata.len(), 3);
    assert_eq!(metadata.get(&2).unwrap().distance, 0);
    assert_eq!(metadata.get(&1).unwrap().distance, i32::MAX);
    assert_eq!(metadata.get(&3).unwrap().distance, i32::MAX);
    assert!(metadata.values().all(|r| !r.visited && r.predecessor.is_none()));
    assert_eq!(
        create_dijkstra_metadata(&vec![1, 2, 3], &4).err(),
        Some(GraphError::MetadataInconsistency)
    );
}

#[test]
fn least_distance_goes_to_the_first_of_equals() {
    let mut metadata: HashMap<i32, MetadataDijkstra<i32>> = HashMap::new();
    metadata.insert(1, record(None, false, 7));
    metadata.insert(2, record(None, false, 3));
    metadata.insert(3, record(None, false, 3));
    assert_eq!(get_min_distance(&vec![1, 2, 3], &metadata), Ok(2));
    assert_eq!(get_min_distance(&vec![3, 1, 2], &metadata), Ok(3));
    assert_eq!(get_min_distance(&vec![1], &metadata), Ok(1));
    assert_eq!(
        get_min_distance(&vec![1, 4], &metadata),
        Err(GraphError::MetadataInconsistency)
    );
}

#[test]
fn first_occurrence_leaves_the_list() {
    let mut list = vec![1, 2, 3, 2];
    remove_from_list(&mut list, &2);
    assert_eq!(list, vec![1, 3, 2]);
    remove_from_list(&mut list, &9);
    assert_eq!(list, vec![1, 3, 2]);
}

#[test]
fn visiting_and_relaxing_update_the_records() {
    let mut metadata: HashMap<i32, MetadataDijkstra<i32>> = HashMap::new();
    metadata.insert(1, record(None, false, 0));
    metadata.insert(2, record(None, false, i32::MAX));
    metadata.insert(3, record(None, false, 4));
    assert_eq!(mark_visited(&mut metadata, &1), Ok(()));
    assert!(metadata.get(&1).unwrap().visited);
    assert_eq!(mark_visited(&mut metadata, &9), Err(GraphError::MetadataInconsistency));

    relax_arc(&mut metadata, &1, &2, 6);
    assert_eq!(metadata.get(&2).unwrap().distance, 6);
    assert_eq!(metadata.get(&2).unwrap().predecessor, Some(1));
    // no improvement
    relax_arc(&mut metadata, &1, &3, 4);
    assert_eq!(metadata.get(&3).unwrap().distance, 4);
    assert_eq!(metadata.get(&3).unwrap().predecessor, None);
    // a visited vertex is left alone
    relax_arc(&mut metadata, &3, &1, -10);
    assert_eq!(metadata.get(&1).unwrap().distance, 0);
    // nothing is reached from a vertex at infinite distance
    metadata.insert(4, record(None, false, i32::MAX));
    metadata.insert(5, record(None, false, i32::MAX));
    relax_arc(&mut metadata, &4, &5, -3);
    assert_eq!(metadata.get(&5).unwrap().distance, i32::MAX);
    // vertices without a record are passed over
    relax_arc(&mut metadata, &1, &8, 1);
    assert!(!metadata.contains_key(&8));
}

#[test]
fn relaxation_of_a_vertex_takes_every_arc() {
    let graph = weighted(&[1, 2, 3], &[(1, 2, 5), (1, 3, 2), (1, 2, 1)]);
    let mut metadata = create_dijkstra_metadata(&vec![1, 2, 3], &1).unwrap();
    assert_eq!(mark_visited(&mut metadata, &1), Ok(()));
    assert_eq!(perform_edge_relaxation(&graph, &mut metadata, &1), Ok(()));
    // between two vertices the first arc inserted counts
    assert_eq!(metadata.get(&2).unwrap().distance, 5);
    assert_eq!(metadata.get(&3).unwrap().distance, 2);
    assert_eq!(metadata.get(&2).unwrap().predecessor, Some(1));
    let mut empty: HashMap<i32, MetadataDijkstra<i32>> = HashMap::new();
    assert_eq!(
        perform_edge_relaxation(&graph, &mut empty, &1),
        Err(GraphError::MetadataInconsistency)
    );
    assert_eq!(perform_edge_relaxation(&graph, &mut empty, &7), Ok(()));
}

#[test]
fn backtracking_follows_the_predecessors() {
    let mut metadata: HashMap<i32, MetadataDijkstra<i32>> = HashMap::new();
    metadata.insert(1, record(None, true, 0));
    metadata.insert(2, record(Some(1), true, 4));
    metadata.insert(3, record(Some(2), true, 9));
    metadata.insert(4, record(None, true, i32::MAX));
    let path = backtrack_vertex_predecessor(&metadata, &1, &3).unwrap();
    assert_eq!(path.get_distance(), 9);
    assert_eq!(path.get_path(), &vec![1, 2, 3]);
    let stay = backtrack_vertex_predecessor(&metadata, &1, &1).unwrap();
    assert_eq!(stay.get_path(), &vec![1]);
    assert_eq!(
        backtrack_vertex_predecessor(&metadata, &1, &4).err(),
        Some(GraphError::Unreachable)
    );
    assert_eq!(
        backtrack_vertex_predecessor(&metadata, &1, &9).err(),
        Some(GraphError::MetadataInconsistency)
    );
}

#[test]
fn backtracking_gives_up_on_broken_links() {
    let mut circle: HashMap<i32, MetadataDijkstra<i32>> = HashMap::new();
    circle.insert(1, record(None, true, 0));
    circle.insert(2, record(Some(3), true, 4));
    circle.insert(3, record(Some(2), true, 9));
    assert_eq!(
        backtrack_vertex_predecessor(&circle, &1, &3).err(),
        Some(GraphError::MetadataInconsistency)
    );
    let mut dangling: HashMap<i32, MetadataDijkstra<i32>> = HashMap::new();
    dangling.insert(1, record(None, true, 0));
    dangling.insert(3, record(Some(2), true, 9));
    assert_eq!(
        backtrack_vertex_predecessor(&dangling, &1, &3).err(),
        Some(GraphError::MetadataInconsistency)
    );
}

#[test]
fn buckets_hand_out_their_items() {
    let mut buckets: HashMap<i32, HashSet<i32>> = HashMap::new();
    add_to_bucket(&mut buckets, 2, 10);
    add_to_bucket(&mut buckets, 2, 11);
    add_to_bucket(&mut buckets, 4, 12);
    let mut current: i32 = 1;
    assert_eq!(get_next_vertex(&mut buckets, &mut current), Err(()));
    assert_eq!(current, 2);
    let first = get_next_vertex(&mut buckets, &mut current).unwrap();
    let second = get_next_vertex(&mut buckets, &mut current).unwrap();
    assert_eq!(current, 2);
    assert!((first == 10 && second == 11) || (first == 11 && second == 10));
    // the emptied bucket stays, and none is made for a key that has none
    assert_eq!(buckets.len(), 2);
    assert!(buckets.get(&2).unwrap().is_empty());
    assert_eq!(get_next_vertex(&mut buckets, &mut current), Err(()));
    assert_eq!(current, 3);
    assert_eq!(buckets.len(), 2);
    assert!(buckets.get(&2).unwrap().is_empty());
    assert_eq!(get_next_vertex(&mut buckets, &mut current), Err(()));
    assert_eq!(current, 4);
    assert_eq!(buckets.len(), 2);
    assert!(!buckets.contains_key(&3));
    assert_eq!(buckets.get(&4).unwrap().len(), 1);
    remove_from_bucket(&mut buckets, 4, &12);
    remove_from_bucket(&mut buckets, 9, &12);
    assert_eq!(buckets.len(), 2);
    assert!(buckets.get(&4).unwrap().is_empty());
    assert!(!buckets.contains_key(&9));
    assert_eq!(get_next_vertex(&mut buckets, &mut current), Err(()));
    assert_eq!(current, 5);
    let mut last: i32 = i32::MAX;
    assert_eq!(get_next_vertex(&mut buckets, &mut last), Err(()));
    assert_eq!(last, i32::MAX);
}

#[test]
fn core_numbers_of_a_complete_graph() {
    let mut graph: UndirectedAdjacencyListGraph<i32, UnweightedEdge<i32>> = Graph::new();
    for n in 1..5 {
        graph.add_node(n);
    }
    for s in 1..5 {
        for t in (s + 1)..5 {
            graph.add_edge(s, t, 0);
        }
    }
    let cores = graph.k_core_decomposition();
    assert_eq!(cores.len(), 1);
    let mut members = cores.get(&3).unwrap().clone();
    members.sort();
    assert_eq!(members, vec![1, 2, 3, 4]);
}

#[test]
fn core_numbers_of_small_graphs() {
    let empty: UndirectedAdjacencyListGraph<i32, UnweightedEdge<i32>> = Graph::new();
    assert!(empty.k_core_decomposition().is_empty());

    // a path: every vertex has core number 1
    let path = weighted(&[1, 2, 3], &[(1, 2, 1), (2, 3, 1)]);
    let cores = path.k_core_decomposition();
    assert_eq!(cores.len(), 1);
    assert_eq!(cores.get(&1).unwrap().len(), 3);

    // a triangle with a tail and an isolated vertex
    let graph = weighted(&[1, 2, 3, 4, 5], &[(1, 2, 1), (1, 3, 1), (2, 3, 1), (2, 5, 1)]);
    let cores = graph.k_core_decomposition();
    assert_eq!(cores.get(&0).unwrap(), &vec![4]);
    assert_eq!(cores.get(&1).unwrap(), &vec![5]);
    let mut triangle = cores.get(&2).unwrap().clone();
    triangle.sort();
    assert_eq!(triangle, vec![1, 2, 3]);
    assert!(cores.get(&3).is_none());
}

fn find(parent: &mut Vec<usize>, x: usize) -> usize {
    let mut root = x;
    while parent[root] != root {
        root = parent[root];
    }
    parent[x] = root;
    root
}

fn least_spanning_weight(nodes: usize, edges: &[(usize, usize, i32)]) -> Option<i32> {
    let mut best: Option<i32> = None;
    for mask in 0u32..(1u32 << edges.len()) {
        if mask.count_ones() as usize != nodes - 1 {
            continue;
        }
        let mut parent: Vec<usize> = (0..nodes).collect();
        let mut weight = 0;
        let mut tree = true;
        for (i, (s, t, w)) in edges.iter().enumerate() {
            if mask & (1 << i) != 0 {
                let a = find(&mut parent, *s);
                let b = find(&mut parent, *t);
                if a == b {
                    tree = false;
                    break;
                }
                parent[a] = b;
                weight += *w;
            }
        }
        if tree && best.map_or(true, |b| weight < b) {
            best = Some(weight);
        }
    }
    best
}

#[test]
fn spanning_tree_is_as_light_as_any() {
    let edges = [(1, 2, 3), (1, 5, 1), (2, 3, 5), (2, 5, 4), (3, 4, 2), (3, 5, 6), (4, 5, 7)];
    let graph = weighted(&[1, 2, 3, 4, 5], &edges);
    let mst = graph.kruskal_min_spanning_tree();
    let picked = mst.get_edges();
    assert_eq!(picked.len(), 4);
    let total: i32 = picked.iter().map(|e| e.get_weight()).sum();
    let plain: Vec<(usize, usize, i32)> =
        edges.iter().map(|(s, t, w)| ((*s - 1) as usize, (*t - 1) as usize, *w)).collect();
    assert_eq!(Some(total), least_spanning_weight(5, &plain));
    assert_eq!(total, 11);
    // every vertex is reached from the first
    let paths = mst.dijkstras_shortest_paths(&1).unwrap();
    assert_eq!(paths.len(), 5);
    // the accepted edges come in the order of their weights
    let weights: Vec<i32> = picked.iter().map(|e| e.get_weight()).collect();
    assert_eq!(weights, vec![1, 2, 3, 5]);
    // the graph itself is left as it was
    assert_eq!(graph.get_edges().len(), 7);
}

#[test]
fn spanning_forest_of_small_graphs() {
    let empty = weighted(&[], &[]);
    let mst = empty.kruskal_min_spanning_tree();
    assert!(mst.get_nodes().is_empty());
    assert!(mst.get_edges().is_empty());

    let lonely = weighted(&[1, 2, 3], &[]);
    let mst = lonely.kruskal_min_spanning_tree();
    assert_eq!(mst.get_nodes().len(), 3);
    assert!(mst.get_edges().is_empty());

    // two components, negative weights, a parallel edge and a loop
    let graph = weighted(
        &[1, 2, 3, 4],
        &[(1, 2, -1), (1, 2, -5), (3, 4, 0), (3, 3, -9), (4, 3, 2)],
    );
    let mst = graph.kruskal_min_spanning_tree();
    let picked: Vec<(i32, i32, i32)> =
        mst.get_edges().iter().map(|e| (e.get_source(), e.get_target(), e.get_weight())).collect();
    assert_eq!(picked, vec![(1, 2, -5), (3, 4, 0)]);
    assert!(mst.is_adjacent(&2, &1));
    assert!(!mst.is_adjacent(&1, &3));
}

#[test]
fn spanning_tree_passes_over_edges_to_nowhere() {
    let graph = weighted(&[1, 2], &[(1, 9, 1), (8, 9, 1), (1, 2, 4)]);
    let mst = graph.kruskal_min_spanning_tree();
    let picked: Vec<(i32, i32, i32)> =
        mst.get_edges().iter().map(|e| (e.get_source(), e.get_target(), e.get_weight())).collect();
    assert_eq!(picked, vec![(1, 2, 4)]);
}

#[test]
fn spanning_tree_of_unit_weights() {
    let mut graph: UndirectedAdjacencyListGraph<i32, UnweightedEdge<i32>> = Graph::new();
    for n in 1..4 {
        graph.add_node(n);
    }
    graph.add_edge(1, 2, 10);
    graph.add_edge(2, 3, 20);
    graph.add_edge(1, 3, 30);
    let mst = graph.kruskal_min_spanning_tree();
    assert_eq!(mst.get_edges().len(), 2);
    assert!(mst.get_edges().iter().all(|e| e.get_weight() == 1));
}

#[test]
fn shortest_paths_along_directed_arcs() {
    let mut graph: graph::graphs::AdjListGraph<i32, ()> = graph::graphs::AdjListGraph::new();
    for n in 1..5 {
        graph.add_vertex(n, ());
    }
    graph.add_edge_with_weight(1, 2, 5);
    graph.add_edge_with_weight(2, 3, 6);
    graph.add_edge_with_weight(1, 3, 20);
    graph.add_undirected_edge(3, 4);
    let path = graph.dijkstras_shortest_path(&1, &4).unwrap();
    assert_eq!(path.get_distance(), 12);
    assert_eq!(path.get_path(), &vec![1, 2, 3, 4]);
    assert_eq!(graph.dijkstras_shortest_path(&4, &3).unwrap().get_distance(), 1);
    assert_eq!(graph.dijkstras_shortest_path(&3, &1).err(), Some(GraphError::Unreachable));
    assert_eq!(graph.dijkstras_shortest_path(&3, &8).err(), Some(GraphError::InvalidVertex));
    let paths = graph.dijkstras_shortest_paths(&1).unwrap();
    assert_eq!(paths.len(), 4);
    assert_eq!(paths.get(&1).unwrap().get_path(), &vec![1]);
    assert_eq!(paths.get(&3).unwrap().get_distance(), 11);
    assert_eq!(graph.dijkstras_shortest_paths(&4).err(), Some(GraphError::Unreachable));
    assert_eq!(graph.dijkstras_shortest_paths(&9).err(), Some(GraphError::InvalidVertex));
    let mut metadata = create_dijkstra_metadata(&vec![1, 2, 3, 4], &1).unwrap();
    assert_eq!(perform_edge_relaxation(&graph, &mut metadata, &1), Ok(()));
    assert_eq!(metadata.get(&2).unwrap().distance, 5);
    assert_eq!(metadata.get(&3).unwrap().distance, 20);
}

#[test]
fn cores_and_diameter_of_a_graph_with_data() {
    let mut graph: graph::graphs::AdjListGraph<i32, char> = graph::graphs::AdjListGraph::new();
    for (n, c) in [(1, 'a'), (2, 'b'), (3, 'c'), (4, 'd'), (5, 'e')] {
        graph.add_vertex(n, c);
    }
    graph.add_undirected_edge(1, 2);
    graph.add_undirected_edge(1, 3);
    graph.add_undirected_edge(2, 3);
    graph.add_undirected_edge(2, 5);
    let mut cores = graph.k_core_decomposition();
    cores.sort_by_key(|core| core.k);
    assert_eq!(cores.len(), 3);
    assert_eq!((cores[0].k, cores[0].vertices.clone()), (0, vec![4]));
    assert_eq!((cores[1].k, cores[1].vertices.clone()), (1, vec![5]));
    let mut inner = cores[2].vertices.clone();
    inner.sort();
    assert_eq!((cores[2].k, inner), (2, vec![1, 2, 3]));
    // the same through the function that every graph shares
    let lists = graph::cores::k_core_decomposition(&graph);
    assert_eq!(lists.get(&0).unwrap(), &vec![4]);
    assert_eq!(graph.graph_diameter_path().err(), Some(GraphError::Unreachable));

    let mut line: graph::graphs::AdjListGraph<i32, ()> = graph::graphs::AdjListGraph::new();
    for n in 1..4 {
        line.add_vertex(n, ());
    }
    line.add_undirected_edge_with_weight(1, 2, 4);
    line.add_undirected_edge_with_weight(2, 3, 5);
    let diameter = line.graph_diameter_path().unwrap();
    assert_eq!(diameter.get_distance(), 9);
    assert_eq!(diameter.get_path().len(), 3);
    assert_eq!(graph::shortest_paths::diameter_path(&line).unwrap().get_distance(), 9);
}

#[test]
fn algorithms_as_functions_of_any_graph() {
    let graph = weighted(&[1, 2, 3], &[(1, 2, 5), (2, 3, 1)]);
    let path = graph::shortest_paths::dijkstras_shortest_path(&graph, &1, &3).unwrap();
    assert_eq!(path.get_distance(), 6);
    let paths = graph::shortest_paths::dijkstras_shortest_paths(&graph, &3).unwrap();
    assert_eq!(paths.get(&1).unwrap().get_path(), &vec![3, 2, 1]);
    assert_eq!(graph.weight_between(&1, &2), Ok(5));
    assert_eq!(graph.weight_between(&1, &3), Err(GraphError::NoEdge));
    assert_eq!(graph.out_degree(&2), Ok(2));
    assert_eq!(graph.out_degree(&7), Err(GraphError::InvalidVertex));
    assert!(graph.has_vertex(&1));
    assert_eq!(graph.neighbour_ids(&2), vec![1, 3]);
    let mut ids = graph.vertex_ids();
    ids.sort();
    assert_eq!(ids, vec![1, 2, 3]);
}

#[test]
fn spanning_edges_of_plain_lists() {
    let nodes = vec!['a', 'b', 'c', 'd'];
    let edges = vec![('a', 'b', 4), ('b', 'c', 1), ('a', 'c', 2), ('c', 'd', 7), ('d', 'x', 0)];
    assert_eq!(graph::kruskal::pick_spanning_edges(&nodes, &edges), vec![1, 2, 3]);
    assert_eq!(graph::kruskal::pick_spanning_edges(&nodes, &vec![]), Vec::<usize>::new());
    assert_eq!(graph::kruskal::pick_spanning_edges(&vec![], &edges), Vec::<usize>::new());
    // a vertex named twice counts once
    let twice = vec!['a', 'b', 'a'];
    assert_eq!(graph::kruskal::pick_spanning_edges(&twice, &edges), vec![0]);
    // the greatest and the least weight there is
    let far = vec![('a', 'b', i32::MAX), ('b', 'c', i32::MIN), ('a', 'c', i32::MAX)];
    assert_eq!(
        graph::kruskal::pick_spanning_edges(&vec!['a', 'b', 'c'], &far).len(),
        2
    );
}

#[test]
fn negative_weights_are_followed_as_they_are() {
    // with small weights of either sign, a walk is found wherever one leads
    let graph = weighted(&[1, 2, 3, 4], &[(1, 2, -3), (2, 3, 4), (1, 3, 5)]);
    let path = graph.dijkstras_shortest_path(&1, &3).unwrap();
    assert_eq!(path.get_path().first(), Some(&1));
    assert_eq!(path.get_path().last(), Some(&3));
    let mut sum = 0;
    for pair in path.get_path().windows(2) {
        sum += graph.get_edge(&pair[0], &pair[1]).unwrap().get_weight();
    }
    assert_eq!(sum, path.get_distance());
    assert_eq!(graph.dijkstras_shortest_path(&1, &4).err(), Some(GraphError::Unreachable));
}

#[test]
fn taking_an_item_leaves_the_other_buckets_alone() {
    let mut buckets: HashMap<i32, HashSet<i32>> = HashMap::new();
    add_to_bucket(&mut buckets, 1, 7);
    add_to_bucket(&mut buckets, 5, 8);
    add_to_bucket(&mut buckets, 5, 9);
    assert_eq!(buckets.len(), 2);
    let mut current: i32 = 1;
    assert_eq!(get_next_vertex(&mut buckets, &mut current), Ok(7));
    assert_eq!(current, 1);
    let mut keys: Vec<i32> = buckets.keys().cloned().collect();
    keys.sort();
    assert_eq!(keys, vec![1, 5]);
    assert!(buckets.get(&1).unwrap().is_empty());
    let mut rest: Vec<i32> = buckets.get(&5).unwrap().iter().cloned().collect();
    rest.sort();
    assert_eq!(rest, vec![8, 9]);
}

#[test]
fn spanning_tree_has_one_edge_fewer_than_vertices() {
    // in one piece: a tree
    let edges = [(1, 2, 3), (1, 5, 1), (2, 3, 5), (2, 5, 4), (3, 4, 2), (3, 5, 6), (4, 5, 7)];
    let graph = weighted(&[1, 2, 3, 4, 5], &edges);
    let mst = graph.kruskal_min_spanning_tree();
    assert_eq!(mst.get_edges().len() + 1, mst.get_nodes().len());
    for target in 1..6 {
        assert!(mst.dijkstras_shortest_path(&1, &target).is_ok());
    }
    // each accepted edge is an edge of the graph, with its weight
    for edge in mst.get_edges() {
        let (s, t, w) = (edge.get_source(), edge.get_target(), edge.get_weight());
        assert!(edges.contains(&(s, t, w)));
    }
    // in three pieces: as many edges as vertices, less three
    let apart = weighted(&[1, 2, 3, 4, 5, 6], &[(1, 2, 1), (2, 3, 1), (1, 3, 1), (4, 5, 2)]);
    let forest = apart.kruskal_min_spanning_tree();
    assert_eq!(forest.get_edges().len(), 6 - 3);
    assert!(forest.dijkstras_shortest_path(&1, &3).is_ok());
    assert!(forest.dijkstras_shortest_path(&4, &5).is_ok());
    assert!(forest.dijkstras_shortest_path(&1, &4).is_err());
    assert!(forest.dijkstras_shortest_path(&1, &6).is_err());
    assert_eq!(
        graph::kruskal::pick_spanning_edges(&vec![1, 2, 3], &vec![(1, 2, 4), (2, 3, 4), (3, 1, 4)])
            .len(),
        2
    );
}

#[test]
fn unit_weight_edges_keep_their_weight_in_the_tree() {
    let mut graph: UndirectedAdjacencyListGraph<i32, UnweightedEdge<i32>> = Graph::new();
    for n in 1..5 {
        graph.add_node(n);
    }
    graph.add_edge(1, 2, 9);
    graph.add_edge(2, 3, 8);
    graph.add_edge(3, 4, 7);
    graph.add_edge(4, 1, 6);
    let mst = graph.kruskal_min_spanning_tree();
    let picked: Vec<(i32, i32, i32)> =
        mst.get_edges().iter().map(|e| (e.get_source(), e.get_target(), e.get_weight())).collect();
    assert_eq!(picked.len(), 3);
    let all: Vec<(i32, i32, i32)> = graph
        .get_edges()
        .iter()
        .map(|e| (e.get_source(), e.get_target(), e.get_weight()))
        .collect();
    assert!(picked.iter().all(|e| all.contains(e)));
}

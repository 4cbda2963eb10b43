use separation::bfs::{all_pairs_distances, bfs_distance};
use separation::graph::{Graph, SeparationError};
use separation::stats::{
    filtered_distances, max_distance, mode_distance, mode_in_table, summarize, summarize_graph,
};

fn sample_graph() -> Graph {
    let edges = vec![(0, 1), (1, 2), (2, 3), (3, 4)];
    Graph::undirected(5, &edges).unwrap()
}

fn average(graph: &Graph, degree: u32) -> f64 {
    let s = summarize_graph(graph, degree);
    if s.valid_pairs > 0 {
        s.distance_sum as f64 / s.valid_pairs as f64
    } else {
        0.0
    }
}

fn percentage(graph: &Graph, degree: u32) -> f64 {
    let s = summarize_graph(graph, degree);
    if s.total_pairs > 0 {
        s.valid_pairs as f64 / s.total_pairs as f64 * 100.0
    } else {
        0.0
    }
}

#[test]
fn test_average_distance() {
    let graph = sample_graph();
    assert_eq!(average(&graph, 1), 1.0);
}

#[test]
fn test_max_distance() {
    let graph = sample_graph();
    assert_eq!(max_distance(&graph, 2), 2);
}

#[test]
fn test_mode_distance() {
    let graph = sample_graph();
    assert_eq!(mode_distance(&graph, 2), Ok(1));
}

#[test]
fn test_distribution_percentage() {
    let graph = sample_graph();
    assert_eq!(percentage(&graph, 4), 80.0);
}

#[test]
fn bfs_start_is_zero_for_every_vertex() {
    let graph = sample_graph();
    for v in 0..5 {
        assert_eq!(bfs_distance(v, &graph)[v], Some(0));
    }
}

#[test]
fn bfs_on_path_gives_hop_counts() {
    let graph = sample_graph();
    assert_eq!(bfs_distance(0, &graph), vec![Some(0), Some(1), Some(2), Some(3), Some(4)]);
    assert_eq!(bfs_distance(2, &graph), vec![Some(2), Some(1), Some(0), Some(1), Some(2)]);
}

#[test]
fn bfs_finds_shortest_of_two_routes() {
    // A square 0-1-2-3-0 with a tail 3-4: vertex 3 is one hop from 0, not three.
    let edges = vec![(0, 1), (1, 2), (2, 3), (3, 0), (3, 4)];
    let graph = Graph::undirected(5, &edges).unwrap();
    assert_eq!(bfs_distance(0, &graph), vec![Some(0), Some(1), Some(2), Some(1), Some(2)]);
}

#[test]
fn all_pairs_table_is_symmetric() {
    let edges = vec![(0, 1), (1, 2), (2, 0), (2, 3), (4, 5)];
    let graph = Graph::undirected(6, &edges).unwrap();
    let table = all_pairs_distances(&graph);
    for u in 0..6 {
        for v in 0..6 {
            assert_eq!(table[u][v], table[v][u]);
        }
    }
    assert_eq!(table[0][3], Some(2));
    assert_eq!(table[0][4], None);
}

#[test]
fn statistics_repeat_identically() {
    let graph = sample_graph();
    for degree in 0..6 {
        assert_eq!(max_distance(&graph, degree), max_distance(&graph, degree));
        assert_eq!(mode_distance(&graph, degree), mode_distance(&graph, degree));
        assert_eq!(summarize_graph(&graph, degree), summarize_graph(&graph, degree));
    }
}

#[test]
fn mode_tie_goes_to_smallest_value() {
    let table = vec![vec![None, Some(2), Some(3)], vec![Some(1), None, Some(3)], vec![Some(2), Some(1), None]];
    assert_eq!(mode_in_table(&table, 5), Ok(1));
    assert_eq!(mode_in_table(&table, 2), Ok(1));
    let table = vec![vec![Some(4), Some(3), Some(4), Some(3)]];
    assert_eq!(mode_in_table(&table, 4), Ok(3));
    assert_eq!(mode_in_table(&table, 3), Ok(3));
}

#[test]
fn degree_zero_admits_nothing() {
    let graph = sample_graph();
    let s = summarize_graph(&graph, 0);
    assert_eq!(s.valid_pairs, 0);
    assert_eq!(s.distance_sum, 0);
    assert_eq!(s.maximum, 0);
    assert_eq!(average(&graph, 0), 0.0);
    assert_eq!(percentage(&graph, 0), 0.0);
    assert_eq!(max_distance(&graph, 0), 0);
    assert_eq!(mode_distance(&graph, 0), Err(SeparationError::EmptyDistribution));
}

#[test]
fn path_graph_statistics() {
    let graph = sample_graph();
    assert_eq!(average(&graph, 1), 1.0);
    assert_eq!(max_distance(&graph, 2), 2);
    assert_eq!(mode_distance(&graph, 2), Ok(1));
    assert_eq!(percentage(&graph, 4), 80.0);
    let s = summarize_graph(&graph, 2);
    assert_eq!((s.total_pairs, s.valid_pairs, s.distance_sum, s.maximum), (25, 14, 20, 2));
    let s = summarize_graph(&graph, 4);
    assert_eq!((s.valid_pairs, s.distance_sum, s.maximum), (20, 40, 4));
    assert_eq!(average(&graph, 4), 2.0);
}

#[test]
fn disconnected_pairs_count_only_in_denominator() {
    let edges = vec![(0, 1), (2, 3)];
    let graph = Graph::undirected(4, &edges).unwrap();
    assert_eq!(bfs_distance(0, &graph), vec![Some(0), Some(1), None, None]);
    let s = summarize_graph(&graph, 30);
    assert_eq!((s.total_pairs, s.valid_pairs, s.distance_sum, s.maximum), (16, 4, 4, 1));
    assert_eq!(average(&graph, 30), 1.0);
    assert_eq!(percentage(&graph, 30), 25.0);
    assert_eq!(mode_distance(&graph, 30), Ok(1));
}

#[test]
fn empty_graph_has_no_pairs() {
    let graph = Graph::undirected(0, &vec![]).unwrap();
    let s = summarize_graph(&graph, 3);
    assert_eq!((s.total_pairs, s.valid_pairs), (0, 0));
    assert_eq!(percentage(&graph, 3), 0.0);
    assert_eq!(mode_distance(&graph, 3), Err(SeparationError::EmptyDistribution));
}

#[test]
fn undirected_rejects_out_of_range_vertex() {
    let edges = vec![(0, 1), (1, 5)];
    assert_eq!(Graph::undirected(5, &edges).err(), Some(SeparationError::InvalidVertexIndex));
}

#[test]
fn neighbour_lists_are_sorted_and_symmetric() {
    let edges = vec![(0, 3), (0, 1), (2, 0), (1, 0)];
    let graph = Graph::undirected(4, &edges).unwrap();
    assert_eq!(graph.n, 4);
    assert_eq!(graph.outedges, vec![vec![1, 1, 2, 3], vec![0, 0], vec![0], vec![0]]);
}

#[test]
fn one_based_records_are_shifted() {
    let records = vec![(1, 2), (3, 2)];
    let graph = Graph::from_one_based(3, &records).unwrap();
    assert_eq!(graph.outedges, vec![vec![1], vec![0, 2], vec![1]]);
}

#[test]
fn one_based_records_reject_zero_and_too_large() {
    assert_eq!(Graph::from_one_based(3, &vec![(0, 1)]).err(), Some(SeparationError::InvalidVertexIndex));
    assert_eq!(Graph::from_one_based(3, &vec![(1, 4)]).err(), Some(SeparationError::InvalidVertexIndex));
}

#[test]
fn filtered_table_keeps_only_threshold_distances() {
    let graph = sample_graph();
    let table = filtered_distances(&graph, 2);
    assert_eq!(table[0], vec![None, Some(1), Some(2), None, None]);
    assert_eq!(table[2], vec![Some(2), Some(1), None, Some(1), Some(2)]);
}

#[test]
fn summarize_reads_a_given_table() {
    let table = vec![vec![Some(0), Some(3), None], vec![Some(3), Some(0), Some(7)]];
    let s = summarize(&table, 5);
    assert_eq!((s.total_pairs, s.valid_pairs, s.distance_sum, s.maximum), (6, 2, 6, 3));
}

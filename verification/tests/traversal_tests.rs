use social_graph::network::Graph;
use social_graph::traversal::{
    average_shortest_path_length, bfs_shortest_paths, checked_shortest_paths, path_length_totals,
    PathTotals, UNREACHABLE,
};

#[test]
fn test_bfs_shortest_paths_triangle() {
    let mut graph = Graph::new();
    graph.add_edge(0, 1);
    graph.add_edge(1, 2);
    graph.add_edge(2, 0);

    let distances = bfs_shortest_paths(&graph, 0);

    assert_eq!(distances[0], 0);
    assert_eq!(distances[1], 1);
    assert_eq!(distances[2], 1);
}

#[test]
fn triangle_distances_are_exact() {
    let mut graph = Graph::new();
    graph.add_edge(0, 1);
    graph.add_edge(1, 2);
    graph.add_edge(2, 0);
    assert_eq!(bfs_shortest_paths(&graph, 0), vec![0, 1, 1]);
}

#[test]
fn path_graph_distances_count_edges() {
    let mut graph = Graph::new();
    graph.add_edge(0, 1);
    graph.add_edge(1, 2);
    graph.add_edge(2, 3);
    graph.add_edge(3, 4);
    assert_eq!(bfs_shortest_paths(&graph, 0), vec![0, 1, 2, 3, 4]);
    assert_eq!(bfs_shortest_paths(&graph, 2), vec![2, 1, 0, 1, 2]);
}

#[test]
fn unreachable_nodes_keep_the_sentinel() {
    let mut graph = Graph::new();
    graph.add_edge(0, 1);
    graph.add_edge(2, 3);
    assert_eq!(UNREACHABLE, usize::MAX);
    assert_eq!(bfs_shortest_paths(&graph, 0), vec![0, 1, UNREACHABLE, UNREACHABLE]);
    assert_eq!(bfs_shortest_paths(&graph, 3), vec![UNREACHABLE, UNREACHABLE, 1, 0]);
}

#[test]
fn distances_are_symmetric_in_an_undirected_graph() {
    let mut graph = Graph::new();
    graph.add_edge(0, 1);
    graph.add_edge(1, 2);
    graph.add_edge(2, 3);
    graph.add_edge(0, 4);
    graph.add_edge(4, 3);
    graph.add_edge(3, 5);
    for u in 0..6 {
        let from_u = bfs_shortest_paths(&graph, u);
        assert_eq!(from_u[u], 0);
        for v in 0..6 {
            let from_v = bfs_shortest_paths(&graph, v);
            assert_eq!(from_u[v], from_v[u]);
        }
    }
    assert_eq!(bfs_shortest_paths(&graph, 0), vec![0, 1, 2, 2, 1, 3]);
}

#[test]
fn checked_search_agrees_where_every_node_has_a_place() {
    let mut graph = Graph::new();
    graph.add_edge(0, 1);
    graph.add_edge(1, 2);
    assert_eq!(checked_shortest_paths(&graph, 1), Some(vec![1, 0, 1]));
}

#[test]
fn checked_search_refuses_an_unknown_start() {
    let graph = Graph::new();
    assert_eq!(checked_shortest_paths(&graph, 0), None);
    let mut graph = Graph::new();
    graph.add_edge(0, 1);
    assert_eq!(checked_shortest_paths(&graph, 2), None);
}

#[test]
fn checked_search_refuses_a_reachable_node_without_a_place() {
    let mut graph = Graph::new();
    graph.add_edge(1, 2);
    graph.add_edge(1, 3);
    assert_eq!(checked_shortest_paths(&graph, 1), None);
}

#[test]
fn start_without_edges_reaches_only_itself() {
    let mut graph = Graph::new();
    graph.add_edge(1, 1);
    graph.adj_list.insert(5, vec![]);
    assert_eq!(checked_shortest_paths(&graph, 0), Some(vec![0, UNREACHABLE]));
}

#[test]
fn test_average_shortest_path_length_triangle() {
    let mut graph = Graph::new();
    graph.add_edge(0, 1);
    graph.add_edge(1, 2);
    graph.add_edge(2, 0);

    let totals = average_shortest_path_length(&graph, 0).unwrap();
    let avg = if totals.count == 0 { 0.0 } else { totals.total as f64 / totals.count as f64 };
    assert!((avg - 1.0).abs() < 1e-6);
}

#[test]
fn triangle_totals_are_two_paths_of_one_edge() {
    let mut graph = Graph::new();
    graph.add_edge(0, 1);
    graph.add_edge(1, 2);
    graph.add_edge(2, 0);
    let totals = average_shortest_path_length(&graph, 0);
    assert_eq!(totals, Some(PathTotals { total: 2, count: 2 }));
}

#[test]
fn empty_graph_has_average_zero() {
    let graph = Graph::new();
    let totals = average_shortest_path_length(&graph, 0);
    assert_eq!(totals, Some(PathTotals { total: 0, count: 0 }));
}

#[test]
fn average_is_not_applicable_without_a_distance_vector() {
    let mut graph = Graph::new();
    graph.add_edge(1, 2);
    graph.add_edge(1, 3);
    assert_eq!(average_shortest_path_length(&graph, 1), None);
    assert_eq!(average_shortest_path_length(&graph, 7), None);
}

#[test]
fn totals_leave_out_the_start_and_the_unreached() {
    let totals = path_length_totals(&vec![0, 1, 2, UNREACHABLE, 3, UNREACHABLE]);
    assert_eq!(totals.total, 6);
    assert_eq!(totals.count, 3);
    let totals = path_length_totals(&vec![]);
    assert_eq!((totals.total, totals.count), (0, 0));
    let totals = path_length_totals(&vec![0, UNREACHABLE]);
    assert_eq!((totals.total, totals.count), (0, 0));
}

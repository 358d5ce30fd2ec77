use social_graph::degrees::{
    bar_len, compute_degree_distribution, degree_histogram, histogram_of, HistogramBar,
};
use std::collections::HashMap;
use social_graph::network::Graph;

#[test]
fn test_compute_degree_distribution() {
    let mut graph = Graph::new();
    graph.add_edge(1, 2);
    graph.add_edge(1, 3);
    graph.add_edge(2, 3);

    let degree_count = compute_degree_distribution(&graph);

    assert_eq!(degree_count.get(&2), Some(&3));
    assert!(!degree_count.contains_key(&1));
}

#[test]
fn test_empty_graph_degree_distribution() {
    let graph = Graph::new();
    let degree_count = compute_degree_distribution(&graph);
    assert!(degree_count.is_empty());
}

#[test]
fn test_graph_with_isolated_nodes() {
    let mut graph = Graph::new();
    graph.add_edge(1, 2);
    graph.adj_list.insert(3, vec![]);
    let degree_count = compute_degree_distribution(&graph);

    assert_eq!(degree_count.get(&0), Some(&1));
    assert_eq!(degree_count.get(&1), Some(&2));
}

#[test]
fn triangle_has_one_bucket() {
    let mut graph = Graph::new();
    graph.add_edge(1, 2);
    graph.add_edge(1, 3);
    graph.add_edge(2, 3);
    let degree_count = compute_degree_distribution(&graph);
    assert_eq!(degree_count.len(), 1);
    assert_eq!(degree_count.get(&2), Some(&3));
}

#[test]
fn isolated_node_distribution_has_two_buckets() {
    let mut graph = Graph::new();
    graph.adj_list.insert(3, vec![]);
    graph.add_edge(1, 2);
    let degree_count = compute_degree_distribution(&graph);
    assert_eq!(degree_count.len(), 2);
    assert_eq!(degree_count.get(&0), Some(&1));
    assert_eq!(degree_count.get(&1), Some(&2));
}

#[test]
fn bucket_counts_sum_to_node_count() {
    let mut graph = Graph::new();
    graph.add_edge(0, 1);
    graph.add_edge(0, 2);
    graph.add_edge(0, 3);
    graph.add_edge(3, 4);
    graph.add_edge(4, 4);
    graph.adj_list.insert(9, vec![]);
    let degree_count = compute_degree_distribution(&graph);
    let sum: usize = degree_count.values().sum();
    assert_eq!(sum, graph.num_nodes());
    assert_eq!(degree_count.get(&0), Some(&1));
    assert_eq!(degree_count.get(&1), Some(&2));
    assert_eq!(degree_count.get(&2), Some(&1));
    assert_eq!(degree_count.get(&3), Some(&2));
}

#[test]
fn bar_length_is_rounded_and_at_least_one() {
    assert_eq!(bar_len(3, 3), 50);
    assert_eq!(bar_len(1, 3), 17);
    assert_eq!(bar_len(2, 3), 33);
    assert_eq!(bar_len(1, 2), 25);
    assert_eq!(bar_len(1, 4), 13);
    assert_eq!(bar_len(1, 100), 1);
    assert_eq!(bar_len(1, 1000), 1);
    assert_eq!(bar_len(0, 7), 1);
    assert_eq!(bar_len(0, 0), 1);
    assert_eq!(bar_len(usize::MAX, usize::MAX), 50);
}

#[test]
fn histogram_lists_buckets_by_rising_degree() {
    let mut graph = Graph::new();
    graph.add_edge(0, 1);
    graph.add_edge(0, 2);
    graph.add_edge(0, 3);
    graph.add_edge(3, 4);
    graph.adj_list.insert(9, vec![]);
    let bars = degree_histogram(&graph);
    assert_eq!(
        bars,
        vec![
            HistogramBar { degree: 0, count: 1, bar_len: 17 },
            HistogramBar { degree: 1, count: 3, bar_len: 50 },
            HistogramBar { degree: 2, count: 1, bar_len: 17 },
            HistogramBar { degree: 3, count: 1, bar_len: 17 },
        ]
    );
}

#[test]
fn histogram_of_an_empty_distribution_is_empty() {
    assert!(degree_histogram(&Graph::new()).is_empty());
    assert!(histogram_of(&HashMap::new()).is_empty());
}

#[test]
fn histogram_of_a_given_distribution() {
    let mut counts = HashMap::new();
    counts.insert(7, 200);
    counts.insert(2, 1);
    counts.insert(5, 100);
    assert_eq!(
        histogram_of(&counts),
        vec![
            HistogramBar { degree: 2, count: 1, bar_len: 1 },
            HistogramBar { degree: 5, count: 100, bar_len: 25 },
            HistogramBar { degree: 7, count: 200, bar_len: 50 },
        ]
    );
}

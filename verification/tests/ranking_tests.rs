use social_graph::network::Graph;
use social_graph::similarity::{
    find_most_similar_pair, find_top_jaccard_similarities, jaccard_similarity, most_similar_among,
    top_similar_among, SimilarPair, Similarity,
};

fn friends() -> Graph {
    let mut graph = Graph::new();
    graph.add_edge(0, 1);
    graph.add_edge(0, 2);
    graph.add_edge(0, 3);
    graph.add_edge(4, 1);
    graph.add_edge(4, 2);
    graph.add_edge(5, 1);
    graph.add_edge(6, 7);
    graph
}

fn twins() -> Graph {
    let mut graph = Graph::new();
    graph.add_edge(1, 3);
    graph.add_edge(2, 3);
    graph.add_edge(1, 4);
    graph.add_edge(2, 4);
    graph.add_edge(5, 3);
    graph
}

#[test]
fn top_two_are_the_two_best() {
    let graph = friends();
    let top = find_top_jaccard_similarities(&graph, 0, 2);
    assert_eq!(
        top,
        vec![(4, Similarity { shared: 2, total: 3 }), (5, Similarity { shared: 1, total: 3 })]
    );
}

#[test]
fn top_list_is_sorted_and_leaves_the_target_out() {
    let graph = friends();
    for target in 0..8 {
        let top = find_top_jaccard_similarities(&graph, target, 5);
        assert_eq!(top.len(), 5);
        for entry in &top {
            assert_ne!(entry.0, target);
            assert_eq!(entry.1, jaccard_similarity(&graph, target, entry.0));
        }
        for pair in top.windows(2) {
            assert!(!pair[1].1.is_greater(&pair[0].1));
        }
    }
}

#[test]
fn top_list_is_shorter_where_nodes_are_few() {
    let graph = friends();
    assert_eq!(find_top_jaccard_similarities(&graph, 0, 100).len(), 7);
    assert_eq!(find_top_jaccard_similarities(&graph, 42, 100).len(), 8);
    assert!(find_top_jaccard_similarities(&graph, 0, 0).is_empty());
    assert!(find_top_jaccard_similarities(&Graph::new(), 0, 5).is_empty());
}

#[test]
fn ranking_of_a_given_listing() {
    let graph = friends();
    let best_two =
        vec![(4, Similarity { shared: 2, total: 3 }), (5, Similarity { shared: 1, total: 3 })];
    assert_eq!(top_similar_among(&graph, 0, &vec![0, 1, 2, 3, 4, 5, 6, 7], 2), best_two);
    assert_eq!(top_similar_among(&graph, 0, &vec![7, 6, 5, 4, 3, 2, 1, 0], 2), best_two);
    assert_eq!(top_similar_among(&graph, 0, &vec![5, 0, 2], 1), vec![best_two[1]]);
    let all = top_similar_among(&graph, 0, &vec![3, 4, 0, 5], 9);
    assert_eq!(all.len(), 3);
    assert_eq!(all[0], best_two[0]);
    assert_eq!(all[1], best_two[1]);
    assert_eq!(all[2], (3, Similarity { shared: 0, total: 4 }));
    assert!(top_similar_among(&graph, 0, &vec![], 3).is_empty());
}

#[test]
fn equal_scores_keep_the_order_of_the_listing() {
    let graph = friends();
    let nodes = vec![0, 1, 2, 3, 4, 5, 6, 7];
    let top = top_similar_among(&graph, 0, &nodes, 4);
    assert_eq!(
        top,
        vec![
            (4, Similarity { shared: 2, total: 3 }),
            (5, Similarity { shared: 1, total: 3 }),
            (1, Similarity { shared: 0, total: 6 }),
            (2, Similarity { shared: 0, total: 5 }),
        ]
    );
    let nodes = vec![7, 6, 5, 4, 3, 2, 1, 0];
    let top = top_similar_among(&graph, 0, &nodes, 3);
    assert_eq!(
        top,
        vec![
            (4, Similarity { shared: 2, total: 3 }),
            (5, Similarity { shared: 1, total: 3 }),
            (7, Similarity { shared: 0, total: 4 }),
        ]
    );
}

#[test]
fn most_similar_pair_of_twins() {
    let graph = twins();
    let best = find_most_similar_pair(&graph).unwrap();
    assert_eq!(best.score, Similarity { shared: 2, total: 2 });
    assert!((best.a, best.b) == (1, 2) || (best.a, best.b) == (2, 1));
}

#[test]
fn first_pair_tried_wins_a_tie() {
    let graph = friends();
    let best = most_similar_among(&graph, &vec![0, 1, 2, 3, 4, 5, 6, 7]);
    assert_eq!(best, SimilarPair { a: 0, b: 4, score: Similarity { shared: 2, total: 3 } });
    let best = most_similar_among(&graph, &vec![2, 1, 4, 0, 3, 5, 6, 7]);
    assert_eq!(best, SimilarPair { a: 2, b: 1, score: Similarity { shared: 2, total: 3 } });
}

#[test]
fn empty_graph_has_no_pair() {
    assert_eq!(find_most_similar_pair(&Graph::new()), None);
}

#[test]
fn single_node_has_no_pair() {
    let mut graph = Graph::new();
    graph.add_edge(4, 4);
    assert_eq!(find_most_similar_pair(&graph), None);
}

#[test]
fn pairs_without_common_neighbors_leave_the_default() {
    let mut graph = Graph::new();
    graph.adj_list.insert(1, vec![]);
    graph.adj_list.insert(2, vec![]);
    let zero = SimilarPair { a: 0, b: 0, score: Similarity { shared: 0, total: 0 } };
    assert_eq!(find_most_similar_pair(&graph), Some(zero));
    let mut graph = Graph::new();
    graph.add_edge(6, 7);
    assert_eq!(find_most_similar_pair(&graph), Some(zero));
    assert_eq!(most_similar_among(&graph, &vec![]), zero);
}

use social_graph::network::Graph;
use social_graph::similarity::{jaccard_similarity, Similarity};

fn sample() -> Graph {
    let mut graph = Graph::new();
    graph.add_edge(0, 1);
    graph.add_edge(0, 2);
    graph.add_edge(0, 3);
    graph.add_edge(4, 1);
    graph.add_edge(4, 2);
    graph.add_edge(5, 1);
    graph.add_edge(6, 7);
    graph
}

#[test]
fn jaccard_counts_shared_and_joint_neighbors() {
    let graph = sample();
    assert_eq!(jaccard_similarity(&graph, 0, 4), Similarity { shared: 2, total: 3 });
    assert_eq!(jaccard_similarity(&graph, 0, 5), Similarity { shared: 1, total: 3 });
    assert_eq!(jaccard_similarity(&graph, 0, 6), Similarity { shared: 0, total: 4 });
}

#[test]
fn jaccard_is_symmetric() {
    let graph = sample();
    for a in 0..9 {
        for b in 0..9 {
            assert_eq!(jaccard_similarity(&graph, a, b), jaccard_similarity(&graph, b, a));
        }
    }
}

#[test]
fn jaccard_lies_between_zero_and_one() {
    let graph = sample();
    for a in 0..9 {
        for b in 0..9 {
            let s = jaccard_similarity(&graph, a, b);
            assert!(s.shared <= s.total);
        }
    }
}

#[test]
fn jaccard_of_absent_node_is_zero() {
    let graph = sample();
    assert_eq!(jaccard_similarity(&graph, 0, 99), Similarity { shared: 0, total: 0 });
    assert_eq!(jaccard_similarity(&graph, 99, 0), Similarity { shared: 0, total: 0 });
    assert_eq!(jaccard_similarity(&graph, 98, 99), Similarity { shared: 0, total: 0 });
}

#[test]
fn jaccard_of_two_isolated_nodes_is_zero() {
    let mut graph = Graph::new();
    graph.adj_list.insert(1, vec![]);
    graph.adj_list.insert(2, vec![]);
    assert_eq!(jaccard_similarity(&graph, 1, 2), Similarity { shared: 0, total: 0 });
}

#[test]
fn jaccard_of_a_node_with_itself_is_one() {
    let graph = sample();
    assert_eq!(jaccard_similarity(&graph, 0, 0), Similarity { shared: 3, total: 3 });
}

#[test]
fn jaccard_collapses_repeated_neighbors() {
    let mut graph = Graph::new();
    graph.add_edge(1, 2);
    graph.add_edge(1, 2);
    graph.add_edge(3, 2);
    graph.add_edge(3, 4);
    assert_eq!(graph.degree(1), 2);
    assert_eq!(jaccard_similarity(&graph, 1, 3), Similarity { shared: 1, total: 2 });
}

#[test]
fn a_score_is_greater_as_a_fraction() {
    let two_thirds = Similarity { shared: 2, total: 3 };
    let half = Similarity { shared: 1, total: 2 };
    let two_quarters = Similarity { shared: 2, total: 4 };
    let zero = Similarity { shared: 0, total: 0 };
    let zero_of_five = Similarity { shared: 0, total: 5 };
    assert!(two_thirds.is_greater(&half));
    assert!(!half.is_greater(&two_thirds));
    assert!(!half.is_greater(&two_quarters));
    assert!(!two_quarters.is_greater(&half));
    assert!(!zero.is_greater(&zero_of_five));
    assert!(!zero_of_five.is_greater(&zero));
    assert!(half.is_greater(&zero));
    assert!(half.is_greater(&zero_of_five));
    assert!(!half.is_greater(&half));
}

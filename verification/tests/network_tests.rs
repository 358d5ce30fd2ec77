use social_graph::network::Graph;

#[test]
fn test_add_edge_and_degree() {
    let mut graph = Graph::new();
    graph.add_edge(1, 2);
    graph.add_edge(1, 3);

    assert_eq!(graph.degree(1), 2);
    assert_eq!(graph.degree(2), 1);
    assert_eq!(graph.degree(3), 1);
}

#[test]
fn test_duplicate_edges() {
    let mut graph = Graph::new();
    graph.add_edge(1, 2);
    graph.add_edge(1, 2);

    assert_eq!(graph.degree(1), 2);
    assert_eq!(graph.degree(2), 2);
}

#[test]
fn new_graph_has_no_nodes() {
    let graph = Graph::new();
    assert_eq!(graph.num_nodes(), 0);
    assert_eq!(graph.degree(0), 0);
    assert!(graph.nodes().is_empty());
}

#[test]
fn add_edge_registers_both_ends_in_order() {
    let mut graph = Graph::new();
    graph.add_edge(5, 7);
    graph.add_edge(5, 9);
    assert_eq!(graph.num_nodes(), 3);
    assert_eq!(graph.adj_list.get(&5), Some(&vec![7, 9]));
    assert_eq!(graph.adj_list.get(&7), Some(&vec![5]));
    assert_eq!(graph.adj_list.get(&9), Some(&vec![5]));
    assert_eq!(graph.degree(4), 0);
}

#[test]
fn each_insertion_raises_both_degrees_by_one() {
    let mut graph = Graph::new();
    graph.add_edge(1, 2);
    graph.add_edge(2, 3);
    let (d1, d2, d3) = (graph.degree(1), graph.degree(2), graph.degree(3));
    graph.add_edge(1, 2);
    assert_eq!(graph.degree(1), d1 + 1);
    assert_eq!(graph.degree(2), d2 + 1);
    assert_eq!(graph.degree(3), d3);
}

#[test]
fn self_loop_is_recorded_twice() {
    let mut graph = Graph::new();
    graph.add_edge(4, 4);
    assert_eq!(graph.num_nodes(), 1);
    assert_eq!(graph.degree(4), 2);
    assert_eq!(graph.adj_list.get(&4), Some(&vec![4, 4]));
}

#[test]
fn nodes_lists_each_key_once() {
    let mut graph = Graph::new();
    graph.add_edge(1, 2);
    graph.add_edge(2, 3);
    graph.adj_list.insert(8, vec![]);
    let mut nodes = graph.nodes();
    nodes.sort();
    assert_eq!(nodes, vec![1, 2, 3, 8]);
}

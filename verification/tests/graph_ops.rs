use curvature_backend::graph::Graph;

#[test]
fn test_graph_new_is_empty() {
    let graph = Graph::new_undirected();
    assert_eq!(graph.node_count(), 0);
    assert_eq!(graph.edge_count(), 0);
}

#[test]
fn test_graph_add_node_ids() {
    let mut graph = Graph::new_undirected();
    assert_eq!(graph.add_node(), 0);
    assert_eq!(graph.add_node(), 1);
    assert_eq!(graph.add_node(), 2);
    assert_eq!(graph.node_count(), 3);
}

#[test]
fn test_graph_contains_edge_both_orientations() {
    let mut graph = Graph::new_undirected();
    let a = graph.add_node();
    let b = graph.add_node();
    let c = graph.add_node();
    graph.add_edge(a, b);

    assert!(graph.contains_edge(a, b));
    assert!(graph.contains_edge(b, a));
    assert!(!graph.contains_edge(a, c));
    assert!(!graph.contains_edge(c, b));
}

#[test]
fn test_graph_degree_counts_incident_edges() {
    let mut graph = Graph::new_undirected();
    let a = graph.add_node();
    let b = graph.add_node();
    let c = graph.add_node();
    let d = graph.add_node();
    graph.add_edge(a, b);
    graph.add_edge(a, c);
    graph.add_edge(a, d);
    graph.add_edge(b, c);

    assert_eq!(graph.degree(a), 3);
    assert_eq!(graph.degree(b), 2);
    assert_eq!(graph.degree(c), 2);
    assert_eq!(graph.degree(d), 1);
}

#[test]
fn test_graph_duplicate_matches_original() {
    let mut graph = Graph::new_undirected();
    let a = graph.add_node();
    let b = graph.add_node();
    let c = graph.add_node();
    graph.add_edge(a, b);
    graph.add_edge(b, c);

    let copy = graph.duplicate();
    assert_eq!(copy.node_count(), graph.node_count());
    assert_eq!(copy.edge_count(), graph.edge_count());
    assert!(copy.contains_edge(a, b));
    assert!(copy.contains_edge(b, c));
    assert!(!copy.contains_edge(a, c));
}

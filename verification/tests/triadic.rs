use curvature_backend::graph::Graph;
use curvature_backend::triadic_rewire::{sample_triadic_rewire, swap_trial};
use curvature_backend::triangles::count_triangles;

#[test]
fn test_swap_trial_accepts_triangle_free_swap() {
    // Four-cycle 0-1-2-3: swapping the edges {0,1} and {2,3} to {0,2} and
    // {1,3} creates no triangle, so the swap is kept.
    let mut graph = Graph::new_undirected();
    for _ in 0..4 {
        graph.add_node();
    }
    graph.add_edge(0, 1);
    graph.add_edge(1, 2);
    graph.add_edge(2, 3);
    graph.add_edge(3, 0);

    swap_trial(&mut graph, 0, 2, 0);

    assert_eq!(graph.node_count(), 4);
    assert_eq!(graph.edge_count(), 4);
    assert_eq!(count_triangles(&graph), 0);
    assert!(!graph.contains_edge(0, 1));
    assert!(!graph.contains_edge(2, 3));
    assert!(graph.contains_edge(0, 2));
    assert!(graph.contains_edge(1, 3));
    assert!(graph.contains_edge(1, 2));
    assert!(graph.contains_edge(3, 0));
}

#[test]
fn test_swap_trial_reverts_triangle_change() {
    // Triangle 0-1-2 and a detached edge {3,4}: trading {0,1} and {3,4} for
    // {0,3} and {1,4} would break the triangle and close no new one, so the
    // graph is restored exactly.
    let mut graph = Graph::new_undirected();
    for _ in 0..5 {
        graph.add_node();
    }
    graph.add_edge(0, 1);
    graph.add_edge(1, 2);
    graph.add_edge(2, 0);
    graph.add_edge(3, 4);

    swap_trial(&mut graph, 0, 3, 1);

    assert_eq!(graph.edge_count(), 4);
    assert_eq!(count_triangles(&graph), 1);
    assert!(graph.contains_edge(0, 1));
    assert!(graph.contains_edge(3, 4));
    assert!(!graph.contains_edge(0, 3));
    assert!(!graph.contains_edge(1, 4));
}

#[test]
fn test_swap_trial_ineligible_shared_endpoint() {
    // The two picked edges share the endpoint 1, so the trial is a no-op.
    let mut graph = Graph::new_undirected();
    for _ in 0..3 {
        graph.add_node();
    }
    graph.add_edge(0, 1);
    graph.add_edge(1, 2);

    swap_trial(&mut graph, 0, 1, 0);

    assert_eq!(graph.edge_count(), 2);
    assert!(graph.contains_edge(0, 1));
    assert!(graph.contains_edge(1, 2));
    assert!(!graph.contains_edge(0, 2));
}

#[test]
fn test_count_triangles() {
    let mut graph = Graph::new_undirected();
    let a = graph.add_node();
    let b = graph.add_node();
    let c = graph.add_node();

    graph.add_edge(a, b);
    graph.add_edge(b, c);
    graph.add_edge(c, a); // One triangle

    assert_eq!(count_triangles(&graph), 1);
}

#[test]
fn test_count_triangles_empty() {
    let graph = Graph::new_undirected();
    assert_eq!(count_triangles(&graph), 0);
}

#[test]
fn test_count_triangles_no_triangle() {
    // A path on three nodes closes no triangle.
    let mut graph = Graph::new_undirected();
    let a = graph.add_node();
    let b = graph.add_node();
    let c = graph.add_node();
    graph.add_edge(a, b);
    graph.add_edge(b, c);

    assert_eq!(count_triangles(&graph), 0);
}

#[test]
fn test_count_triangles_complete_four() {
    // The complete graph on four nodes holds four triangles.
    let mut graph = Graph::new_undirected();
    for _ in 0..4 {
        graph.add_node();
    }
    for u in 0..4 {
        for w in (u + 1)..4 {
            graph.add_edge(u, w);
        }
    }

    assert_eq!(graph.edge_count(), 6);
    assert_eq!(count_triangles(&graph), 4);
}

#[test]
fn test_count_triangles_two_disjoint() {
    let mut graph = Graph::new_undirected();
    for _ in 0..6 {
        graph.add_node();
    }
    graph.add_edge(0, 1);
    graph.add_edge(1, 2);
    graph.add_edge(2, 0);
    graph.add_edge(3, 4);
    graph.add_edge(4, 5);
    graph.add_edge(5, 3);

    assert_eq!(count_triangles(&graph), 2);
}

#[test]
fn test_triadic_rewire_preserves_triangles() {
    let mut graph = Graph::new_undirected();
    let a = graph.add_node();
    let b = graph.add_node();
    let c = graph.add_node();
    let d = graph.add_node();

    graph.add_edge(a, b);
    graph.add_edge(b, c);
    graph.add_edge(c, a); // Triangle
    graph.add_edge(c, d);
    graph.add_edge(d, a);

    let initial_triangles = count_triangles(&graph);
    let rewired = sample_triadic_rewire(&graph);

    assert_eq!(rewired.node_count(), 4);
    assert_eq!(count_triangles(&rewired), initial_triangles);
}

#[test]
fn test_triadic_rewire_preserves_edge_count() {
    let mut graph = Graph::new_undirected();
    let a = graph.add_node();
    let b = graph.add_node();
    let c = graph.add_node();
    let d = graph.add_node();

    graph.add_edge(a, b);
    graph.add_edge(b, c);
    graph.add_edge(c, d);
    graph.add_edge(d, a);

    let initial_edges = graph.edge_count();
    let rewired = sample_triadic_rewire(&graph);

    assert_eq!(rewired.edge_count(), initial_edges);
}

#[test]
fn test_triadic_rewire_small_graph() {
    // Graph too small to rewire
    let mut graph = Graph::new_undirected();
    let a = graph.add_node();
    let b = graph.add_node();

    graph.add_edge(a, b);

    let rewired = sample_triadic_rewire(&graph);
    assert_eq!(rewired.edge_count(), 1);
}

#[test]
fn test_triadic_rewire_empty_graph() {
    let graph = Graph::new_undirected();
    let rewired = sample_triadic_rewire(&graph);
    assert_eq!(rewired.node_count(), 0);
    assert_eq!(rewired.edge_count(), 0);
}

#[test]
fn test_triadic_rewire_complete_graph_unchanged() {
    // On a complete graph every candidate replacement edge already exists, so
    // no trial is eligible and the edge set cannot change.
    let mut graph = Graph::new_undirected();
    for _ in 0..4 {
        graph.add_node();
    }
    for u in 0..4 {
        for w in (u + 1)..4 {
            graph.add_edge(u, w);
        }
    }

    let rewired = sample_triadic_rewire(&graph);
    assert_eq!(rewired.node_count(), 4);
    assert_eq!(rewired.edge_count(), 6);
    assert_eq!(count_triangles(&rewired), 4);
    for u in 0..4 {
        for w in (u + 1)..4 {
            assert!(rewired.contains_edge(u, w));
        }
    }
}

#[test]
fn test_triadic_rewire_larger_graph() {
    // A wheel-like graph with several triangles; every sampled output must
    // keep the node count, the edge count and the triangle count.
    let mut graph = Graph::new_undirected();
    for _ in 0..7 {
        graph.add_node();
    }
    for u in 1..7 {
        graph.add_edge(0, u);
    }
    for u in 1..7 {
        let w = if u == 6 { 1 } else { u + 1 };
        graph.add_edge(u, w);
    }

    let initial_triangles = count_triangles(&graph);
    let initial_edges = graph.edge_count();
    let rewired = sample_triadic_rewire(&graph);

    assert_eq!(rewired.node_count(), 7);
    assert_eq!(rewired.edge_count(), initial_edges);
    assert_eq!(count_triangles(&rewired), initial_triangles);
    // Double-edge swaps also preserve every node's degree.
    for node in 0..7 {
        assert_eq!(rewired.degree(node), graph.degree(node));
    }
}

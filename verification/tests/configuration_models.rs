use curvature_backend::configuration::{
    generate_configuration_models, pair_stubs, sample_configuration_model,
};

#[test]
fn test_configuration_model_basic() {
    let degrees = vec![2, 2, 2, 2]; // 4 nodes, each degree 2
    let graph = sample_configuration_model(&degrees);

    assert_eq!(graph.node_count(), 4);
    // Each node should have degree at most the requested 2
    for node in 0..graph.node_count() {
        let degree = graph.degree(node);
        assert!(degree <= 2);
    }
}

#[test]
fn test_configuration_model_degree_preservation() {
    let degrees = vec![2, 2, 2, 2];
    let nulls = generate_configuration_models(&degrees, 10);

    assert_eq!(nulls.len(), 10);
    // Each null model realizes at most the requested total degree; pairs that
    // would make a self-loop or a repeated edge are dropped, so the realized
    // total can fall short but never exceeds the request.
    let requested: usize = degrees.iter().sum();
    for null in nulls {
        let mut realized: usize = 0;
        for node in 0..null.node_count() {
            realized += null.degree(node);
        }
        assert!(realized <= requested);
    }
}

#[test]
fn test_configuration_model_per_node_bound() {
    let degrees = vec![3, 1, 2, 0, 5];
    let graph = sample_configuration_model(&degrees);

    assert_eq!(graph.node_count(), 5);
    for node in 0..graph.node_count() {
        assert!(graph.degree(node) <= degrees[node]);
    }
    // Node 3 asked for nothing and must stay isolated.
    assert_eq!(graph.degree(3), 0);
}

#[test]
fn test_configuration_model_empty() {
    let degrees: Vec<usize> = vec![];
    let graph = sample_configuration_model(&degrees);

    assert_eq!(graph.node_count(), 0);
    assert_eq!(graph.edge_count(), 0);
}

#[test]
fn test_configuration_model_zero_degrees() {
    let degrees = vec![0, 0, 0];
    let graph = sample_configuration_model(&degrees);

    assert_eq!(graph.node_count(), 3);
    assert_eq!(graph.edge_count(), 0);
}

#[test]
fn test_configuration_model_odd_sum() {
    // An odd stub total leaves one stub unpaired, silently dropped.
    let degrees = vec![1, 1, 1];
    let graph = sample_configuration_model(&degrees);

    assert_eq!(graph.node_count(), 3);
    assert!(graph.edge_count() <= 1);
    for node in 0..graph.node_count() {
        assert!(graph.degree(node) <= 1);
    }
}

#[test]
fn test_pair_stubs_keeps_new_simple_edges() {
    // Stubs 0,1 then 0,1 again: the first pair makes the edge, the repeat is
    // dropped.
    let stubs = vec![0, 1, 0, 1];
    let graph = pair_stubs(&stubs, 2);

    assert_eq!(graph.node_count(), 2);
    assert_eq!(graph.edge_count(), 1);
    assert!(graph.contains_edge(0, 1));
}

#[test]
fn test_pair_stubs_drops_self_loops() {
    // Both pairs would be self-loops; nothing is kept.
    let stubs = vec![0, 0, 1, 1];
    let graph = pair_stubs(&stubs, 2);

    assert_eq!(graph.node_count(), 2);
    assert_eq!(graph.edge_count(), 0);
}

#[test]
fn test_pair_stubs_drops_trailing_stub() {
    let stubs = vec![0, 1, 2];
    let graph = pair_stubs(&stubs, 3);

    assert_eq!(graph.edge_count(), 1);
    assert!(graph.contains_edge(0, 1));
    assert_eq!(graph.degree(2), 0);
}

#[test]
fn test_configuration_model_exact_when_collision_free() {
    // With two nodes of degree one the stub list is a permutation of [0, 1]:
    // every shuffle is collision-free, so the single edge is always realized.
    let degrees = vec![1, 1];
    let graph = sample_configuration_model(&degrees);

    assert_eq!(graph.node_count(), 2);
    assert_eq!(graph.edge_count(), 1);
    assert!(graph.contains_edge(0, 1));
    assert_eq!(graph.degree(0), 1);
    assert_eq!(graph.degree(1), 1);
}

#[test]
fn test_configuration_model_exact_all_distinct_stubs() {
    // Four nodes of degree one: all stubs are distinct, so no pairing can
    // produce a self-loop or a repeat; two edges are always realized.
    let degrees = vec![1, 1, 1, 1];
    let graph = sample_configuration_model(&degrees);

    assert_eq!(graph.edge_count(), 2);
    for node in 0..4 {
        assert_eq!(graph.degree(node), 1);
    }
}

#[test]
fn test_generate_configuration_models_count() {
    let degrees = vec![1, 1];
    let nulls = generate_configuration_models(&degrees, 7);
    assert_eq!(nulls.len(), 7);
    for null in nulls {
        assert_eq!(null.node_count(), 2);
        assert!(null.edge_count() <= 1);
    }
}

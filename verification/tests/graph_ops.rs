use ugraph::graph::{Graph, GraphError};

/// A graph of the given order with records for ids `1..=order` and the
/// given edges added.
fn make_graph(order: usize, edges: &[(usize, usize, i32)]) -> Graph {
    let mut g = Graph::new();
    g.order = order;
    for id in 1..=order {
        g.add_node(id);
    }
    for &(a, b, w) in edges {
        g.add_edge(a, b, w).unwrap();
    }
    g
}

#[test]
fn added_edge_weight_readable_both_ways() {
    let mut g = make_graph(3, &[(1, 2, 5)]);
    assert_eq!(g.get_edge_weight(1, 2).unwrap(), 5);
    assert_eq!(g.get_edge_weight(2, 1).unwrap(), 5);
}

#[test]
fn invalid_weight_fails_and_mutates_nothing() {
    let mut g = make_graph(3, &[(1, 2, 5)]);
    assert_eq!(g.add_edge(1, 3, 0), Err(GraphError::InvalidWeight));
    assert_eq!(g.add_edge(1, 3, -7), Err(GraphError::InvalidWeight));
    assert_eq!(g.get_num_edges(), 1);
    assert_eq!(g.get_edge_weight(1, 3), Err(GraphError::NotFound));
    assert_eq!(g.get_edge_weight(1, 2).unwrap(), 5);
}

#[test]
fn self_loop_is_rejected() {
    let mut g = make_graph(3, &[]);
    assert_eq!(g.add_edge(2, 2, 4), Err(GraphError::SelfLoop));
    assert_eq!(g.get_num_edges(), 0);
}

#[test]
fn missing_node_record_is_rejected() {
    let mut g = Graph::new();
    g.order = 2;
    g.add_node(1);
    assert_eq!(g.add_edge(1, 2, 3), Err(GraphError::NotFound));
    assert_eq!(g.get_num_edges(), 0);
}

#[test]
fn add_remove_round_trip_restores_count() {
    let mut g = make_graph(3, &[(1, 2, 5), (2, 3, 7)]);
    let before = g.get_num_edges();
    g.add_edge(1, 3, 9).unwrap();
    assert_eq!(g.get_num_edges(), before + 1);
    g.remove_edge(1, 3).unwrap();
    assert_eq!(g.get_num_edges(), before);
    assert_eq!(g.remove_edge(1, 3), Err(GraphError::NotFound));
}

#[test]
fn num_edges_matches_independent_bookkeeping() {
    let mut g = Graph::new();
    g.order = 6;
    for id in 1..=6 {
        g.add_node(id);
    }
    let mut count: usize = 0;
    for &(a, b, w) in &[(1, 2, 1), (1, 3, 2), (2, 3, 3), (4, 5, 4), (5, 6, 5)] {
        g.add_edge(a, b, w).unwrap();
        count += 1;
        assert_eq!(g.get_num_edges(), count);
    }
    // Re-adding an existing pair overwrites the weight, adding no edge.
    g.add_edge(1, 2, 9).unwrap();
    assert_eq!(g.get_num_edges(), count);
    assert_eq!(g.get_edge_weight(2, 1).unwrap(), 9);
    for &(a, b) in &[(2, 1), (3, 1), (5, 4)] {
        g.remove_edge(a, b).unwrap();
        count -= 1;
        assert_eq!(g.get_num_edges(), count);
    }
}

#[test]
fn complete_four_node_graph() {
    let mut g = make_graph(
        4,
        &[(1, 2, 1), (1, 3, 1), (1, 4, 1), (2, 3, 1), (2, 4, 1), (3, 4, 1)],
    );
    assert_eq!(g.get_num_edges(), 6);
    assert!(g.is_complete());
    g.remove_edge(2, 4).unwrap();
    assert!(!g.is_complete());
}

#[test]
fn empty_graph_of_order_zero_is_complete() {
    let g = Graph::new();
    assert_eq!(g.get_num_edges(), 0);
    assert!(g.is_complete());
}

#[test]
fn degree_counters_follow_edges() {
    let mut g = make_graph(4, &[(1, 2, 1), (1, 3, 1), (1, 4, 1)]);
    let n1 = g.get_open_neighborhood(1).len();
    assert_eq!(n1, 3);
    g.remove_edge(1, 4).unwrap();
    assert_eq!(g.get_open_neighborhood(1).len(), 2);
    assert_eq!(g.get_open_neighborhood(4).len(), 0);
}

#[test]
fn demo_scenario_order_three() {
    let mut g = make_graph(3, &[(1, 2, 5), (2, 3, 7)]);
    assert_eq!(g.get_num_edges(), 2);
    assert_eq!(g.get_edge_weight(1, 2).unwrap(), 5);
    g.remove_edge(1, 2).unwrap();
    assert_eq!(g.get_num_edges(), 1);
    let n2 = g.get_open_neighborhood(2);
    assert_eq!(n2.len(), 1);
    assert_eq!(n2[0].get_dest(), 3);
}

#[test]
fn open_neighborhood_materialises_unseen_node() {
    let mut g = make_graph(2, &[(1, 2, 3)]);
    let n9 = g.get_open_neighborhood(9);
    assert_eq!(n9.len(), 0);
}

#[test]
fn closed_neighborhood_collects_pointers_back() {
    let mut g = make_graph(4, &[(1, 2, 5), (3, 1, 7), (2, 3, 9)]);
    let pointing_at_1 = g.get_closed_neighborhood(1);
    assert_eq!(pointing_at_1.len(), 2);
    for e in &pointing_at_1 {
        assert_eq!(e.get_dest(), 1);
    }
    let weights: Vec<i32> = pointing_at_1.iter().map(|e| e.get_weight()).collect();
    assert!(weights.contains(&5));
    assert!(weights.contains(&7));
}

#[test]
fn remove_node_scrubs_every_edge_set() {
    let mut g = make_graph(4, &[(1, 2, 1), (1, 3, 2), (2, 3, 3), (3, 4, 4)]);
    g.remove_node(3);
    assert_eq!(g.get_num_edges(), 1);
    assert_eq!(g.get_edge_weight(1, 3), Err(GraphError::NotFound));
    assert_eq!(g.get_edge_weight(2, 3), Err(GraphError::NotFound));
    assert_eq!(g.get_edge_weight(4, 3), Err(GraphError::NotFound));
    assert_eq!(g.get_edge_weight(1, 2).unwrap(), 1);
    assert_eq!(g.get_open_neighborhood(4).len(), 0);
}

#[test]
fn remove_node_without_adjacency_is_a_no_op() {
    let mut g = Graph::new();
    g.order = 2;
    g.add_node(1);
    g.add_node(2);
    g.remove_node(2);
    // The record is still there: an edge to it can be added.
    assert!(g.add_edge(1, 2, 4).is_ok());
}

#[test]
fn add_node_caps_at_order() {
    let mut g = Graph::new();
    g.order = 2;
    g.add_node(1);
    g.add_node(2);
    g.add_node(3);
    // The third registration was ignored: edges to node 3 are rejected.
    assert_eq!(g.add_edge(1, 3, 1), Err(GraphError::NotFound));
    assert!(g.add_edge(1, 2, 1).is_ok());
}

#[test]
fn add_node_is_idempotent_for_existing_ids() {
    let mut g = Graph::new();
    g.order = 2;
    g.add_node(1);
    g.add_node(1);
    g.add_node(2);
    assert!(g.add_edge(1, 2, 1).is_ok());
}

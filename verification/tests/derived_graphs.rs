use ugraph::edge::Edge;
use ugraph::graph::{build_graph_from_edges, Graph, GraphError};
use ugraph::node::Node;

fn make_graph(order: usize, edges: &[(usize, usize, i32)]) -> Graph {
    let mut g = Graph::new();
    g.order = order;
    for id in 1..=order {
        g.add_node(id);
    }
    for &(a, b, w) in edges {
        g.add_edge(a, b, w).unwrap();
    }
    g
}

#[test]
fn union_order_is_the_larger_order() {
    let g1 = make_graph(3, &[(1, 2, 5)]);
    let g2 = make_graph(5, &[(4, 5, 2)]);
    let u = g1.get_union(g2);
    assert_eq!(u.order, 5);
}

#[test]
fn union_holds_every_edge_of_either_input() {
    let g1 = make_graph(3, &[(1, 2, 5), (2, 3, 7)]);
    let g2 = make_graph(4, &[(3, 4, 2)]);
    let mut u = g1.get_union(g2);
    assert_eq!(u.get_edge_weight(1, 2).unwrap(), 5);
    assert_eq!(u.get_edge_weight(2, 3).unwrap(), 7);
    assert_eq!(u.get_edge_weight(3, 4).unwrap(), 2);
    assert_eq!(u.get_num_edges(), 3);
    for w in [5, 7, 2] {
        assert!(w >= 1);
    }
}

#[test]
fn union_conflicting_weight_taken_from_second_graph() {
    let g1 = make_graph(2, &[(1, 2, 5)]);
    let g2 = make_graph(2, &[(1, 2, 9)]);
    let mut u = g1.get_union(g2);
    assert_eq!(u.get_edge_weight(1, 2).unwrap(), 9);
    assert_eq!(u.get_num_edges(), 1);
}

#[test]
fn complement_on_complete_graph_is_refused() {
    let g = make_graph(3, &[(1, 2, 1), (1, 3, 1), (2, 3, 1)]);
    assert!(g.is_complete());
    match g.get_complement() {
        Err(e) => assert_eq!(e, GraphError::AlreadyComplete),
        Ok(_) => panic!("a complete graph has no complement here"),
    }
}

#[test]
fn complement_joins_anchor_to_non_neighbours_only() {
    // The anchor is the first node that gained an adjacency row: node 1.
    let g = make_graph(4, &[(1, 2, 5), (2, 3, 7)]);
    let mut c = g.get_complement().unwrap();
    assert_eq!(c.order, 4);
    // 2 is a neighbour of the anchor in g: never joined in the complement.
    assert_eq!(c.get_edge_weight(1, 2), Err(GraphError::NotFound));
    // 3 and 4 are not neighbours of the anchor: joined with weight one.
    assert_eq!(c.get_edge_weight(1, 3).unwrap(), 1);
    assert_eq!(c.get_edge_weight(1, 4).unwrap(), 1);
    assert_eq!(c.get_num_edges(), 2);
}

#[test]
fn complement_fails_when_a_target_has_no_record() {
    // Order 3 admits three records, but only 1 and 2 are registered; the
    // complement would join the anchor to 3, whose record is missing.
    let mut g = Graph::new();
    g.order = 3;
    g.add_node(1);
    g.add_node(2);
    g.add_edge(1, 2, 5).unwrap();
    match g.get_complement() {
        Err(e) => assert_eq!(e, GraphError::NotFound),
        Ok(_) => panic!("a missing record must stop the complement"),
    }
}

#[test]
fn union_with_an_empty_graph_keeps_the_edges() {
    let g1 = make_graph(3, &[(1, 2, 5), (2, 3, 7)]);
    let g2 = Graph::new();
    let mut u = g1.get_union(g2);
    assert_eq!(u.order, 3);
    assert_eq!(u.get_num_edges(), 2);
    assert_eq!(u.get_edge_weight(1, 2).unwrap(), 5);
    assert_eq!(u.get_edge_weight(3, 2).unwrap(), 7);
}

#[test]
fn build_of_order_zero_rejects_any_edge() {
    let no_records: Vec<(usize, usize, i32)> = Vec::new();
    let g = build_graph_from_edges(0, &no_records).unwrap();
    assert_eq!(g.get_num_edges(), 0);
    let records = vec![(1usize, 2usize, 5i32)];
    assert!(matches!(build_graph_from_edges(0, &records), Err(GraphError::NotFound)));
}

#[test]
fn closed_neighborhood_of_untouched_node_is_empty() {
    let mut g = make_graph(3, &[(1, 2, 5)]);
    assert_eq!(g.get_closed_neighborhood(3).len(), 0);
}

#[test]
fn complement_of_edgeless_graph_has_no_edges() {
    let g = make_graph(2, &[]);
    assert!(!g.is_complete());
    let c = g.get_complement().unwrap();
    assert_eq!(c.get_num_edges(), 0);
    assert_eq!(c.order, 2);
}

#[test]
fn build_from_records_builds_the_described_graph() {
    let records = vec![(1usize, 2usize, 5i32), (2usize, 3usize, 7i32)];
    let mut g = build_graph_from_edges(3, &records).unwrap();
    assert_eq!(g.order, 3);
    assert_eq!(g.get_num_edges(), 2);
    assert_eq!(g.get_edge_weight(1, 2).unwrap(), 5);
    assert_eq!(g.get_edge_weight(3, 2).unwrap(), 7);
}

#[test]
fn build_rejects_a_bad_weight() {
    let records = vec![(1usize, 2usize, 0i32)];
    assert!(matches!(
        build_graph_from_edges(3, &records),
        Err(GraphError::InvalidWeight)
    ));
}

#[test]
fn build_rejects_a_self_loop() {
    let records = vec![(2usize, 2usize, 3i32)];
    assert!(matches!(build_graph_from_edges(3, &records), Err(GraphError::SelfLoop)));
}

#[test]
fn build_stops_when_the_order_cap_leaves_a_node_unregistered() {
    // Order 1: only the first endpoint gets a record, so the edge fails.
    let records = vec![(1usize, 2usize, 5i32)];
    assert!(matches!(build_graph_from_edges(1, &records), Err(GraphError::NotFound)));
}

#[test]
fn adjacency_lists_render_the_rows() {
    let g = make_graph(3, &[(1, 2, 5), (2, 3, 7)]);
    let rows = g.get_adjacency_lists();
    // Rows appear in the order the nodes gained edges: 1, 2, 3.
    assert_eq!(rows.len(), 3);
    assert_eq!(rows[0].0, 1);
    assert_eq!(rows[0].1, vec![2]);
    assert_eq!(rows[1].0, 2);
    assert_eq!(rows[1].1, vec![1, 3]);
    assert_eq!(rows[2].0, 3);
    assert_eq!(rows[2].1, vec![2]);
}

#[test]
fn edge_accessors_return_what_was_stored() {
    let e = Edge::new(7, 42);
    assert_eq!(e.get_dest(), 7);
    assert_eq!(e.get_weight(), 42);
}

#[test]
fn node_degree_counter_moves_by_one() {
    let mut n = Node::new(3, 4);
    assert_eq!(n.get_id(), 3);
    assert_eq!(n.get_weight(), 4);
    assert_eq!(n.get_degree(), 0);
    n.increment_degree();
    n.increment_degree();
    assert_eq!(n.get_degree(), 2);
    n.decrement_degree();
    assert_eq!(n.get_degree(), 1);
}

#[test]
fn node_weight_is_derived_from_the_id() {
    let mut g = Graph::new();
    g.order = 2;
    g.add_node(205);
    g.add_node(7);
    assert_eq!(g.node_list.len(), 2);
    assert_eq!(g.node_list[0].get_id(), 205);
    assert_eq!(g.node_list[0].get_weight(), (205 % 200) + 1);
    assert_eq!(g.node_list[1].get_weight(), 8);
}

#[test]
fn degrees_are_kept_equal_to_incident_edge_counts() {
    let mut g = make_graph(4, &[(1, 2, 1), (1, 3, 1), (2, 3, 1)]);
    for n in &g.node_list {
        let expected = match n.get_id() {
            1 | 2 | 3 => 2,
            _ => 0,
        };
        assert_eq!(n.get_degree(), expected);
    }
    g.remove_edge(1, 2).unwrap();
    for n in &g.node_list {
        let expected = match n.get_id() {
            1 | 2 => 1,
            3 => 2,
            _ => 0,
        };
        assert_eq!(n.get_degree(), expected);
    }
}

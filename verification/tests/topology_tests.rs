//! Tests for the topological graph.

use transit_grid::{Accessability, Direction, NetworkError, TopologyGraph};

#[test]
fn topology_graph_test_topology_graph() {
    let mut topo_graph = TopologyGraph::new();

    let node_id1 = 1;
    let node_id2 = 2;

    let (added_node_id1_1, added_node_id1_2) = topo_graph.add_node(node_id1).unwrap();
    let (added_node_id2_1, added_node_id2_2) = topo_graph.add_node(node_id2).unwrap();

    // Each call to add_node() adds two nodes, so the total node count should be 4.
    assert_eq!(topo_graph.node_count(), 4);

    let edge_id1 = 1;

    topo_graph
        .add_edge_pair(added_node_id1_1, added_node_id2_1, added_node_id2_2, added_node_id1_2, edge_id1)
        .unwrap();

    assert_eq!(topo_graph.edge_count(), 2);

    // Test if has_incoming works as expected.
    assert_eq!(topo_graph.has_incoming(added_node_id2_1), true);
    assert_eq!(topo_graph.has_incoming(added_node_id1_1), false);

    assert_eq!(topo_graph.has_incoming(added_node_id1_2), true);
    assert_eq!(topo_graph.has_incoming(added_node_id2_2), false);
}

#[test]
fn test_no_edges_in_direction() {
    let mut graph = TopologyGraph::new();

    let node1 = 1;
    let node2 = 2;
    let node3 = 3;

    let node1_id = graph.add_node(node1).unwrap();
    let node2_id = graph.add_node(node2).unwrap();
    let _node3_id = graph.add_node(node3).unwrap();

    let edge_id1 = 1;
    let edge_id2 = 2;
    graph.add_edge(edge_id1, node1, node2).unwrap();
    graph.add_edge(edge_id2, node1, node3).unwrap();

    // There are outgoing edges from node1's first slot to node2.
    assert_eq!(
        graph.no_edges_in_direction(node1_id.0, &vec![node2], Direction::Outgoing),
        false
    );

    // There are outgoing edges from node1's first slot to node2 and node3.
    assert_eq!(
        graph.no_edges_in_direction(node1_id.0, &vec![node2, node3], Direction::Outgoing),
        false
    );

    // There are no outgoing edges from node2's first slot to node1.
    assert_eq!(
        graph.no_edges_in_direction(node2_id.0, &vec![node1], Direction::Outgoing),
        true
    );
}

#[test]
fn test_find_node_index_with_edges() {
    let mut graph = TopologyGraph::new();

    let node1 = 1;
    let node2 = 2;
    let node3 = 3;
    let node4 = 4;

    let topo_node1 = graph.add_node(node1).unwrap();
    let topo_node2 = graph.add_node(node2).unwrap();
    let topo_node3 = graph.add_node(node3).unwrap();
    let topo_node4 = graph.add_node(node4).unwrap();

    graph.add_edge(1, node1, node2).unwrap();
    graph.add_edge(2, node1, node3).unwrap();
    graph.add_edge(3, node2, node3).unwrap();
    graph.add_edge(4, node3, node4).unwrap();

    assert_eq!(
        graph.find_node_index_with_edges(node1, &vec![node2, node3], Direction::Outgoing),
        Some(topo_node1.0)
    );
    assert_eq!(
        graph.find_node_index_with_edges(node2, &vec![node1, node3], Direction::Incoming),
        Some(topo_node2.0)
    );
    assert_eq!(
        graph.find_node_index_with_edges(node3, &vec![node2, node4], Direction::Outgoing),
        Some(topo_node3.0)
    );
    assert_eq!(
        graph.find_node_index_with_edges(node4, &vec![node3], Direction::Incoming),
        Some(topo_node4.0)
    );
}

#[test]
fn test_get_other_toponode() {
    let mut topo_graph = TopologyGraph::new();

    let node_id1: u64 = 1;
    let node_id2: u64 = 2;

    let (topo_node_id1_1, topo_node_id1_2) = topo_graph.add_node(node_id1).unwrap();
    let (topo_node_id2_1, topo_node_id2_2) = topo_graph.add_node(node_id2).unwrap();

    assert_eq!(topo_graph.get_other_toponode(topo_node_id1_1), Some(topo_node_id1_2));
    assert_eq!(topo_graph.get_other_toponode(topo_node_id1_2), Some(topo_node_id1_1));

    assert_eq!(topo_graph.get_other_toponode(topo_node_id2_1), Some(topo_node_id2_2));
    assert_eq!(topo_graph.get_other_toponode(topo_node_id2_2), Some(topo_node_id2_1));

    // For a slot index that does not exist, the function returns None.
    assert_eq!(topo_graph.get_other_toponode(100), None);
}

#[test]
fn topology_graph_test_add_edge_with_accessibility() {
    let mut topo_graph = TopologyGraph::new();

    let node_id1 = 1;
    let node_id2 = 2;
    topo_graph.add_node(node_id1).unwrap();
    topo_graph.add_node(node_id2).unwrap();

    let edge_id = 1;
    let accessability = Accessability::ReachableNodes(vec![node_id1, node_id2]);
    let (edge_index1, edge_index2) = topo_graph
        .add_edge_with_accessibility(edge_id, node_id1, node_id2, accessability)
        .unwrap();

    // The edge has been added correctly.
    assert!(topo_graph.edge_weight(edge_index1).is_some());
    assert!(topo_graph.edge_weight(edge_index2).is_some());

    let edge_indices = topo_graph.find_edge_indices(1, 2);
    assert_eq!(edge_indices.is_some(), true);
    assert_eq!(edge_indices.unwrap().0, 0);
}

#[test]
fn test_add_edge_with_accessibility_scenario_reachable() {
    let mut topo_graph = TopologyGraph::new();

    let node_ids: Vec<u64> = (0..5).collect();
    for node_id in &node_ids {
        topo_graph.add_node(*node_id).unwrap();
    }

    // Add edge from 4 to 0.
    let edge_id = 1;
    let accessability = Accessability::ReachableNodes(vec![node_ids[0]]);
    topo_graph
        .add_edge_with_accessibility(edge_id, node_ids[4], node_ids[0], accessability)
        .unwrap();

    // Add edges from 1 to 2 and 1 to 3.
    let edge_id = 2;
    let accessability = Accessability::ReachableNodes(vec![]);
    topo_graph
        .add_edge_with_accessibility(edge_id, node_ids[1], node_ids[2], accessability.clone())
        .unwrap();
    let edge_id = 3;
    topo_graph
        .add_edge_with_accessibility(edge_id, node_ids[1], node_ids[3], accessability)
        .unwrap();

    // Add edge from 0 to 1.
    let edge_id = 4;
    let accessability = Accessability::ReachableNodes(vec![node_ids[4], node_ids[2], node_ids[3]]);
    topo_graph
        .add_edge_with_accessibility(edge_id, node_ids[0], node_ids[1], accessability)
        .unwrap();

    // All edges have been added correctly.
    for i in 1..=4usize {
        let edge_index1 = i * 2 - 2;
        let edge_index2 = i * 2 - 1;
        assert!(topo_graph.edge_weight(edge_index1).is_some());
        assert!(topo_graph.edge_weight(edge_index2).is_some());
    }
}

#[test]
fn test_add_edge_with_accessibility_scenario_unreachable() {
    let mut topo_graph = TopologyGraph::new();

    let node_ids: Vec<u64> = (0..4).collect();
    for node_id in &node_ids {
        topo_graph.add_node(*node_id).unwrap();
    }

    let node_idx0 = (0, 1);
    let node_idx1 = (2, 3);
    let node_idx2 = (4, 5);
    let node_idx3 = (6, 7);

    // Add edge from 0 to 1.
    topo_graph
        .add_edge_pair(node_idx0.0, node_idx1.0, node_idx1.1, node_idx0.1, 1)
        .unwrap();

    // Add edge from 1 to 2.
    topo_graph
        .add_edge_pair(node_idx1.0, node_idx2.0, node_idx2.1, node_idx1.1, 2)
        .unwrap();

    // Add edge from 1 to 3.
    let edge_id = 3;
    let accessability = Accessability::UnreachableNodes(vec![node_ids[2]]);
    topo_graph
        .add_edge_with_accessibility(edge_id, node_ids[1], node_ids[3], accessability)
        .unwrap();

    assert!(
        topo_graph.find_edge(node_idx1.0, node_idx3.0).is_some()
            || topo_graph.find_edge(node_idx1.0, node_idx3.1).is_some()
    );

    // All edges have been added correctly.
    for i in 1..=3usize {
        let edge_index1 = i * 2 - 2;
        let edge_index2 = i * 2 - 1;
        assert!(topo_graph.edge_weight(edge_index1).is_some());
        assert!(topo_graph.edge_weight(edge_index2).is_some());
    }
}

#[test]
fn topology_graph_test_default() {
    let topo_graph = TopologyGraph::default();

    // The graph is empty.
    assert_eq!(topo_graph.node_count(), 0);
    assert_eq!(topo_graph.edge_count(), 0);
    assert!(topo_graph.id_to_index(0).is_none());
    assert!(topo_graph.index_to_id(0).is_none());
}

#[test]
fn test_reverse_edge() {
    let mut topo_graph = TopologyGraph::default();
    let node1 = topo_graph.add_node(1).unwrap();
    let node2 = topo_graph.add_node(2).unwrap();
    let edge_index = topo_graph.add_edge(33, 1, 2).unwrap();

    // The edge is initially from node1 to node2.
    assert_eq!(topo_graph.edge_endpoints(edge_index.0), Some((node1.0, node2.0)));

    topo_graph.reverse_edge(edge_index.0);

    assert_eq!(topo_graph.edge_endpoints(edge_index.0), Some((node2.0, node1.0)));
}

#[test]
fn test_duplicate_topology_node_rejected() {
    let mut topo_graph = TopologyGraph::new();
    topo_graph.add_node(1).unwrap();
    assert_eq!(topo_graph.add_node(1), Err(NetworkError::DuplicateNode));
    assert_eq!(topo_graph.node_count(), 2);
}

#[test]
fn test_unknown_topology_edge_rejected() {
    let mut topo_graph = TopologyGraph::new();
    topo_graph.add_node(1).unwrap();
    assert_eq!(topo_graph.add_edge(1, 1, 9), Err(NetworkError::UnknownNode));
    assert_eq!(topo_graph.edge_count(), 0);
}

#[test]
fn test_no_slot_available_for_unknown_node() {
    let mut topo_graph = TopologyGraph::new();
    topo_graph.add_node(1).unwrap();
    let accessability = Accessability::ReachableNodes(vec![]);
    assert_eq!(
        topo_graph.add_edge_with_accessibility(1, 1, 9, accessability),
        Err(NetworkError::NoSlotAvailable)
    );
}

#[test]
fn test_mismatched_edge_pair_rejected() {
    let mut topo_graph = TopologyGraph::new();
    let node1 = topo_graph.add_node(1).unwrap();
    let node2 = topo_graph.add_node(2).unwrap();
    // The claimed mirror edge runs between the slots of the same node.
    assert_eq!(
        topo_graph.add_edge_pair(node1.0, node1.1, node2.0, node2.1, 5),
        Err(NetworkError::MismatchedPair)
    );
    assert_eq!(topo_graph.edge_count(), 0);
}

//! Tests for dual-edge direction repair.

use transit_grid::{TopologyGraph, TopologyGraphRepairer};

#[test]
fn repair_test_repair_edge() {
    let mut topo_graph = TopologyGraph::new();

    let node_id_a = 1;
    let node_id_b = 2;
    let node_id_c = 3;
    let node_id_d = 4;

    topo_graph.add_node(node_id_a).unwrap();
    topo_graph.add_node(node_id_b).unwrap();
    topo_graph.add_node(node_id_c).unwrap();
    topo_graph.add_node(node_id_d).unwrap();

    let _edge31 = topo_graph.add_edge(31, 1, 2).unwrap();
    let edge32 = topo_graph.add_edge(32, 2, 3).unwrap();
    let _edge33 = topo_graph.add_edge(33, 3, 4).unwrap();

    assert_ne!(true, topo_graph.edge_is_in_neighbors_direction(edge32.0));
    assert_ne!(true, topo_graph.edge_is_in_neighbors_direction(edge32.1));

    topo_graph.repair_edge(node_id_b, node_id_c);

    assert!(topo_graph.edge_is_in_neighbors_direction(edge32.0));
    assert!(topo_graph.edge_is_in_neighbors_direction(edge32.1));
}

#[test]
fn topology_graph_test_repair_edge() {
    let mut topo_graph = TopologyGraph::new();

    topo_graph.add_node(1).unwrap();
    topo_graph.add_node(2).unwrap();
    topo_graph.add_node(3).unwrap();
    topo_graph.add_node(4).unwrap();

    let _edge31 = topo_graph.add_edge(31, 1, 2).unwrap();
    let edge32 = topo_graph.add_edge(32, 2, 3).unwrap();
    let _edge33 = topo_graph.add_edge(33, 3, 4).unwrap();

    assert_ne!(true, topo_graph.edge_is_in_neighbors_direction(edge32.0));
    assert_ne!(true, topo_graph.edge_is_in_neighbors_direction(edge32.1));

    topo_graph.repair_edge(2, 3);

    assert!(topo_graph.edge_is_in_neighbors_direction(edge32.0));
    assert!(topo_graph.edge_is_in_neighbors_direction(edge32.1));
}

#[test]
fn test_reverse_dual_edge() {
    let mut topo_graph = TopologyGraph::new();

    let node_id1 = 1;
    let node_id2 = 2;

    let (added_node_id1_1, added_node_id1_2) = topo_graph.add_node(node_id1).unwrap();
    let (added_node_id2_1, added_node_id2_2) = topo_graph.add_node(node_id2).unwrap();

    assert_eq!(topo_graph.node_count(), 4);

    let edge_id1 = 1;

    topo_graph
        .add_edge_pair(added_node_id1_1, added_node_id2_1, added_node_id2_2, added_node_id1_2, edge_id1)
        .unwrap();

    assert_eq!(topo_graph.edge_count(), 2);

    assert_eq!(topo_graph.has_incoming(added_node_id2_1), true);
    assert_eq!(topo_graph.has_incoming(added_node_id1_1), false);

    assert_eq!(topo_graph.has_incoming(added_node_id1_2), true);
    assert_eq!(topo_graph.has_incoming(added_node_id2_2), false);

    topo_graph.reverse_dual_edge(node_id1, node_id2);

    assert_eq!(topo_graph.has_incoming(added_node_id1_1), true);
    assert_eq!(topo_graph.has_incoming(added_node_id2_1), false);

    assert_eq!(topo_graph.has_incoming(added_node_id2_2), true);
    assert_eq!(topo_graph.has_incoming(added_node_id1_2), false);
}

#[test]
fn test_cross_link_dual_edge() {
    let mut topo_graph = TopologyGraph::new();

    let node_id1 = 1;
    let node_id2 = 2;

    let (added_node_id1_1, added_node_id1_2) = topo_graph.add_node(node_id1).unwrap();
    let (added_node_id2_1, added_node_id2_2) = topo_graph.add_node(node_id2).unwrap();

    assert_eq!(topo_graph.node_count(), 4);

    let edge_id1 = 1;

    topo_graph.add_edge(edge_id1, node_id1, node_id2).unwrap();

    assert_eq!(topo_graph.edge_count(), 2);

    assert_eq!(topo_graph.has_incoming(added_node_id1_1), false);
    assert_eq!(topo_graph.has_incoming(added_node_id2_1), true);

    assert_eq!(topo_graph.has_incoming(added_node_id1_2), true);
    assert_eq!(topo_graph.has_incoming(added_node_id2_2), false);

    assert!(topo_graph.find_edge(added_node_id1_1, added_node_id2_1).is_some());

    topo_graph.cross_link_dual_edge(node_id1, node_id2);

    assert_eq!(topo_graph.has_incoming(added_node_id1_1), false);
    assert_eq!(topo_graph.has_incoming(added_node_id2_1), false);

    assert_eq!(topo_graph.has_incoming(added_node_id1_2), true);
    assert_eq!(topo_graph.has_incoming(added_node_id2_2), true);

    assert!(topo_graph.find_edge(added_node_id1_1, added_node_id2_1).is_none());
    assert!(topo_graph.find_edge(added_node_id2_1, added_node_id1_2).is_some());
    assert!(topo_graph.find_edge(added_node_id1_1, added_node_id2_2).is_some());
}

#[test]
fn test_repair_edge_idempotent_on_chain() {
    // Repairing an already-repaired dual edge changes nothing.
    let mut topo_graph = TopologyGraph::new();
    for id in 1..=4u64 {
        topo_graph.add_node(id).unwrap();
    }
    topo_graph.add_edge(31, 1, 2).unwrap();
    topo_graph.add_edge(32, 2, 3).unwrap();
    topo_graph.add_edge(33, 3, 4).unwrap();

    topo_graph.repair_edge(2, 3);
    let after_once: Vec<Option<(usize, usize)>> =
        (0..topo_graph.edge_count()).map(|e| topo_graph.edge_endpoints(e)).collect();

    topo_graph.repair_edge(2, 3);
    let after_twice: Vec<Option<(usize, usize)>> =
        (0..topo_graph.edge_count()).map(|e| topo_graph.edge_endpoints(e)).collect();

    assert_eq!(after_once, after_twice);
}

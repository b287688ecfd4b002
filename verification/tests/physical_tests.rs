//! Tests for the physical graph.

use transit_grid::{NetworkError, PhysicalGraph, Point, TransitEdge, TransitNode};

fn node(id: u64, x: i32, y: i32) -> TransitNode {
    TransitNode { id, location: Point { x, y } }
}

#[test]
fn mod_test_graph() {
    let mut graph = PhysicalGraph::new();

    let node1 = node(1, 0, 0);
    let node2 = node(2, 1, 1);

    let _node1_index = graph.add_transit_node(node1).unwrap();
    let _node2_index = graph.add_transit_node(node2).unwrap();

    let edge = TransitEdge {
        id: 1,
        source: 1,
        target: 2,
        length: 1,
        path: vec![Point { x: 0, y: 0 }, Point { x: 1, y: 1 }],
    };

    let _ = graph.add_transit_edge(edge).unwrap();

    assert_eq!(graph.node_count(), 2);
    assert_eq!(graph.edge_count(), 1);
}

#[test]
fn physical_graph_test_graph() {
    let mut graph = PhysicalGraph::new();

    graph.add_transit_node(node(1, 0, 0)).unwrap();
    graph.add_transit_node(node(2, 1, 1)).unwrap();

    let edge = TransitEdge {
        id: 1,
        source: 1,
        target: 2,
        length: 1,
        path: vec![Point { x: 0, y: 0 }, Point { x: 1, y: 1 }],
    };
    graph.add_transit_edge(edge).unwrap();

    assert_eq!(graph.node_count(), 2);
    assert_eq!(graph.edge_count(), 1);
}

#[test]
fn test_index_to_id() {
    let mut graph = PhysicalGraph::new();

    let node1_index = graph.add_transit_node(node(1, 0, 0)).unwrap();
    let node2_index = graph.add_transit_node(node(2, 1, 1)).unwrap();

    let node1_id = graph.index_to_id(node1_index).unwrap();
    let node2_id = graph.index_to_id(node2_index).unwrap();

    assert_eq!(node1_id, 1);
    assert_eq!(node2_id, 2);
}

#[test]
fn test_id_to_index() {
    let mut graph = PhysicalGraph::new();

    let node1_index = graph.add_transit_node(node(1, 0, 0)).unwrap();
    let node2_index = graph.add_transit_node(node(2, 1, 1)).unwrap();

    let queried_node1_index = graph.id_to_index(1).unwrap();
    let queried_node2_index = graph.id_to_index(2).unwrap();

    assert_eq!(node1_index, queried_node1_index);
    assert_eq!(node2_index, queried_node2_index);
}

#[test]
fn physical_mod_test_default() {
    let graph = PhysicalGraph::default();

    assert_eq!(graph.node_count(), 0);
    assert_eq!(graph.edge_count(), 0);
}

#[test]
fn test_repair_physical() {
    let mut graph = PhysicalGraph::new();
    graph.add_transit_node(node(1, 0, 0)).unwrap();
    graph.add_transit_node(node(2, 1, 1)).unwrap();

    let edge = TransitEdge {
        id: 1,
        source: 1,
        target: 2,
        length: 1,
        // Note that the direction is initially reversed.
        path: vec![Point { x: 1, y: 1 }, Point { x: 0, y: 0 }],
    };

    graph.add_transit_edge(edge.clone()).unwrap();

    graph.repair_edge(1, 2);

    let edge = graph.get_transit_edge(1, 2).unwrap();

    assert_eq!(edge.path, vec![Point { x: 0, y: 0 }, Point { x: 1, y: 1 }]);
}

#[test]
fn test_duplicate_node_rejected() {
    let mut graph = PhysicalGraph::new();
    graph.add_transit_node(node(1, 0, 0)).unwrap();
    assert_eq!(graph.add_transit_node(node(1, 5, 5)), Err(NetworkError::DuplicateNode));
    assert_eq!(graph.node_count(), 1);
}

#[test]
fn test_unknown_node_edge_rejected() {
    let mut graph = PhysicalGraph::new();
    graph.add_transit_node(node(1, 0, 0)).unwrap();
    let edge = TransitEdge {
        id: 1,
        source: 1,
        target: 9,
        length: 1,
        path: vec![Point { x: 0, y: 0 }, Point { x: 1, y: 1 }],
    };
    assert_eq!(graph.add_transit_edge(edge), Err(NetworkError::UnknownNode));
    assert_eq!(graph.edge_count(), 0);
}

#[test]
fn test_empty_path_edge_rejected() {
    let mut graph = PhysicalGraph::new();
    graph.add_transit_node(node(1, 0, 0)).unwrap();
    graph.add_transit_node(node(2, 1, 1)).unwrap();
    let edge = TransitEdge { id: 1, source: 1, target: 2, length: 1, path: vec![] };
    assert_eq!(graph.add_transit_edge(edge), Err(NetworkError::EmptyPath));
    assert_eq!(graph.edge_count(), 0);
}

#[test]
fn test_repair_keeps_straight_path() {
    let mut graph = PhysicalGraph::new();
    graph.add_transit_node(node(1, 0, 0)).unwrap();
    graph.add_transit_node(node(2, 3, 0)).unwrap();
    let edge = TransitEdge {
        id: 7,
        source: 1,
        target: 2,
        length: 3,
        path: vec![Point { x: 0, y: 0 }, Point { x: 2, y: 1 }, Point { x: 3, y: 0 }],
    };
    graph.add_transit_edge(edge).unwrap();
    graph.repair_edge(1, 2);
    let repaired = graph.get_transit_edge(1, 2).unwrap();
    assert_eq!(
        repaired.path,
        vec![Point { x: 0, y: 0 }, Point { x: 2, y: 1 }, Point { x: 3, y: 0 }]
    );
}

//! Tests for the core value types: nodes, edges and accessibility.

use transit_grid::{Accessability, NodeAccessability, PathCoordinates, Point, TransitEdge, TransitNode};

#[test]
fn test_node() {
    let node = TransitNode { id: 1, location: Point { x: 0, y: 0 } };
    assert_eq!(node.id, 1);
    assert_eq!(node.location, Point { x: 0, y: 0 });
}

#[test]
fn test_edge() {
    let edge = TransitEdge {
        id: 1,
        source: 1,
        target: 2,
        length: 1,
        path: vec![Point { x: 0, y: 0 }, Point { x: 1, y: 1 }],
    };
    assert_eq!(edge.id, 1);
    assert_eq!(edge.source, 1);
    assert_eq!(edge.target, 2);
    assert_eq!(edge.length, 1);
    assert_eq!(edge.path, vec![Point { x: 0, y: 0 }, Point { x: 1, y: 1 }]);
}

#[test]
fn test_edge_default() {
    let edge = TransitEdge::default();
    assert_eq!(edge.id, 0);
    assert_eq!(edge.source, 0);
    assert_eq!(edge.target, 0);
    assert_eq!(edge.path, Vec::<Point>::new());
}

#[test]
fn test_edge_coordinates() {
    let edge = TransitEdge {
        id: 1,
        source: 1,
        target: 2,
        length: 1,
        path: vec![Point { x: 0, y: 0 }, Point { x: 1, y: 1 }],
    };
    assert_eq!(edge.source_coordinate(), Point { x: 0, y: 0 });
    assert_eq!(edge.target_coordinate(), Point { x: 1, y: 1 });
}

#[test]
fn accessability_test_node_accessibility() {
    let reachable_nodes = Accessability::ReachableNodes(vec![1, 2, 3]);
    let unreachable_nodes = Accessability::UnreachableNodes(vec![4, 5, 6]);

    assert_eq!(reachable_nodes.reachable_nodes(), Some(&vec![1, 2, 3]));
    assert_eq!(reachable_nodes.unreachable_nodes(), None);

    assert_eq!(unreachable_nodes.reachable_nodes(), None);
    assert_eq!(unreachable_nodes.unreachable_nodes(), Some(&vec![4, 5, 6]));
}

#[test]
fn node_accessability_test_node_accessibility() {
    let reachable_nodes = NodeAccessability::ReachableNodes(vec![1, 2, 3]);
    let unreachable_nodes = NodeAccessability::UnreachableNodes(vec![4, 5, 6]);

    assert_eq!(reachable_nodes.reachable_nodes(), Some(&vec![1, 2, 3]));
    assert_eq!(reachable_nodes.unreachable_nodes(), None);

    assert_eq!(unreachable_nodes.reachable_nodes(), None);
    assert_eq!(unreachable_nodes.unreachable_nodes(), Some(&vec![4, 5, 6]));
}

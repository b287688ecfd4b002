//! Tests for the accessibility-aware shortest-path search.

use transit_grid::{
    Accessability, LengthCost, Point, ShortestPath, ShortestPathWithAccessability, TransitEdge,
    TransitNetwork, TransitNetworkModifier, TransitNode, UnitCost,
};

fn node(id: u64, x: i32, y: i32) -> TransitNode {
    TransitNode { id, location: Point { x, y } }
}

fn edge(id: u64, source: u64, target: u64, length: u64, path: Vec<Point>) -> TransitEdge {
    TransitEdge { id, source, target, length, path }
}

fn p(x: i32, y: i32) -> Point {
    Point { x, y }
}

#[test]
fn test_shortest_path() {
    let mut network = TransitNetwork::new();

    network.add_node(node(0, 0, 0)).unwrap();
    network.add_node(node(1, 1, 1)).unwrap();
    network.add_node(node(2, 2, 2)).unwrap();
    network.add_node(node(3, 3, 3)).unwrap();
    network.add_node(node(4, 4, 4)).unwrap();

    let edge01 = edge(1, 0, 1, 1, vec![p(0, 0), p(1, 1)]);
    let edge12 = edge(12, 1, 2, 1, vec![p(1, 1), p(2, 2)]);
    let edge23 = edge(23, 2, 3, 1, vec![p(2, 2), p(3, 3)]);
    let edge34 = edge(34, 3, 4, 1, vec![p(3, 3), p(4, 4)]);

    network.add_edge(edge01).unwrap();
    network.add_edge_with_accessibility(edge12, Accessability::ReachableNodes(vec![0])).unwrap();
    network.add_edge_with_accessibility(edge23, Accessability::ReachableNodes(vec![1])).unwrap();
    network.add_edge_with_accessibility(edge34, Accessability::ReachableNodes(vec![2])).unwrap();

    let result = network.find_shortest_path(0, 4);
    // Expected shortest path is 0 -> 1 -> 2 -> 3 -> 4.
    assert_eq!(result, Some(vec![0, 1, 2, 3, 4]));
}

#[test]
fn test_shortest_path_with_accessability() {
    let mut network = TransitNetwork::new();

    network.add_node(node(0, 0, 0)).unwrap();
    network.add_node(node(1, 1, 1)).unwrap();
    network.add_node(node(2, 2, 2)).unwrap();
    network.add_node(node(3, 3, 3)).unwrap();
    network.add_node(node(4, 4, 4)).unwrap();
    network.add_node(node(5, 5, 5)).unwrap();

    let edge01 = edge(1, 0, 1, 1, vec![p(0, 0), p(1, 1)]);
    let edge02 = edge(2, 0, 2, 1, vec![p(1, 1), p(2, 2)]);
    let edge13 = edge(13, 1, 3, 1, vec![p(1, 1), p(3, 3)]);
    let edge14 = edge(14, 1, 4, 1, vec![p(1, 1), p(4, 4)]);
    let edge25 = edge(25, 2, 5, 1, vec![p(1, 1), p(4, 4)]);
    let edge45 = edge(45, 5, 4, 1, vec![p(1, 1), p(4, 4)]);

    network.add_edge(edge01).unwrap();
    network.add_edge_with_accessibility(edge14, Accessability::ReachableNodes(vec![0])).unwrap();
    network.add_edge_with_accessibility(edge02, Accessability::ReachableNodes(vec![0])).unwrap();
    network.add_edge_with_accessibility(edge13, Accessability::ReachableNodes(vec![0])).unwrap();
    network.add_edge_with_accessibility(edge25, Accessability::ReachableNodes(vec![1])).unwrap();
    network.add_edge_with_accessibility(edge45, Accessability::ReachableNodes(vec![2, 1])).unwrap();

    // Test case 1: no node is unreachable.
    let result = network.find_shortest_path_with_accessability(
        0,
        4,
        Accessability::UnreachableNodes(vec![]),
        &UnitCost,
    );
    // Expected shortest path is 0 -> 1 -> 4.
    assert_eq!(result, Some((2, vec![0, 1, 4])));

    // Test case 2: there is no path from node 3 to node 4.
    let result = network.find_shortest_path_with_accessability(
        3,
        4,
        Accessability::UnreachableNodes(vec![]),
        &UnitCost,
    );
    assert_eq!(result, None);

    // Test case 3: node 1 is unreachable.
    let result = network.find_shortest_path_with_accessability(
        0,
        4,
        Accessability::UnreachableNodes(vec![1]),
        &UnitCost,
    );
    // Expected shortest path is 0 -> 2 -> 5 -> 4.
    assert_eq!(result, Some((3, vec![0, 2, 5, 4])));
}

#[test]
fn test_calc_edge_cost_blocks_unreachable_target() {
    let mut network = TransitNetwork::new();
    network.add_node(node(1, 0, 0)).unwrap();
    network.add_node(node(2, 1, 1)).unwrap();
    network.add_edge(edge(1, 1, 2, 7, vec![p(0, 0), p(1, 1)])).unwrap();

    // The target is named unreachable: the step has no usable cost.
    assert_eq!(
        network.calc_edge_cost(1, 2, &Accessability::UnreachableNodes(vec![2]), &UnitCost),
        None
    );
    // Without the restriction the edge resolves and costs one.
    assert_eq!(
        network.calc_edge_cost(1, 2, &Accessability::UnreachableNodes(vec![]), &UnitCost),
        Some(1)
    );
    // A reachable-nodes constraint never gates the cost.
    assert_eq!(
        network.calc_edge_cost(1, 2, &Accessability::ReachableNodes(vec![2]), &UnitCost),
        Some(1)
    );
    // Nodes that are not connected have no usable cost.
    assert_eq!(
        network.calc_edge_cost(2, 1, &Accessability::UnreachableNodes(vec![]), &UnitCost),
        Some(1)
    );
    assert_eq!(
        network.calc_edge_cost(1, 9, &Accessability::UnreachableNodes(vec![]), &UnitCost),
        None
    );
}

#[test]
fn test_calc_edge_cost_uses_length() {
    let mut network = TransitNetwork::new();
    network.add_node(node(1, 0, 0)).unwrap();
    network.add_node(node(2, 3, 4)).unwrap();
    network.add_edge(edge(1, 1, 2, 5, vec![p(0, 0), p(3, 4)])).unwrap();

    assert_eq!(
        network.calc_edge_cost(1, 2, &Accessability::UnreachableNodes(vec![]), &LengthCost),
        Some(5)
    );
}

#[test]
fn test_shortest_path_same_node() {
    let mut network = TransitNetwork::new();
    network.add_node(node(1, 0, 0)).unwrap();
    assert_eq!(network.find_shortest_path(1, 1), Some(vec![1]));
}

#[test]
fn test_shortest_path_prefers_cheaper_length() {
    // Two routes lead from 0 to 4: through 1 (two long edges) or
    // through 2 and 5 (three short ones).  Under the length cost the
    // three-hop route wins; under the unit cost the two-hop one does.
    let mut network = TransitNetwork::new();

    for id in 0..6u64 {
        network.add_node(node(id, id as i32, id as i32)).unwrap();
    }

    let edge01 = edge(1, 0, 1, 10, vec![p(0, 0), p(1, 1)]);
    let edge02 = edge(2, 0, 2, 1, vec![p(0, 0), p(2, 2)]);
    let edge13 = edge(13, 1, 3, 1, vec![p(1, 1), p(3, 3)]);
    let edge14 = edge(14, 1, 4, 10, vec![p(1, 1), p(4, 4)]);
    let edge25 = edge(25, 2, 5, 1, vec![p(2, 2), p(5, 5)]);
    let edge45 = edge(45, 5, 4, 1, vec![p(5, 5), p(4, 4)]);

    network.add_edge(edge01).unwrap();
    network.add_edge_with_accessibility(edge14, Accessability::ReachableNodes(vec![0])).unwrap();
    network.add_edge_with_accessibility(edge02, Accessability::ReachableNodes(vec![0])).unwrap();
    network.add_edge_with_accessibility(edge13, Accessability::ReachableNodes(vec![0])).unwrap();
    network.add_edge_with_accessibility(edge25, Accessability::ReachableNodes(vec![1])).unwrap();
    network.add_edge_with_accessibility(edge45, Accessability::ReachableNodes(vec![2, 1])).unwrap();

    let by_length = network.find_shortest_path_with_accessability(
        0,
        4,
        Accessability::UnreachableNodes(vec![]),
        &LengthCost,
    );
    assert_eq!(by_length, Some((3, vec![0, 2, 5, 4])));

    let by_hops = network.find_shortest_path_with_accessability(
        0,
        4,
        Accessability::UnreachableNodes(vec![]),
        &UnitCost,
    );
    assert_eq!(by_hops, Some((2, vec![0, 1, 4])));
}

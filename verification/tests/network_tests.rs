//! Tests for the transit network composition and network-wide repair.

use transit_grid::{
    Accessability, Point, TransitEdge, TransitNetwork, TransitNetworkModifier,
    TransitNetworkRepairer, TransitNode,
};

fn node(id: u64, x: i32, y: i32) -> TransitNode {
    TransitNode { id, location: Point { x, y } }
}

fn edge(id: u64, source: u64, target: u64, path: Vec<Point>) -> TransitEdge {
    TransitEdge { id, source, target, length: 1, path }
}

fn topo_edge_ids(network: &TransitNetwork) -> Vec<u64> {
    (0..network.topology_graph.edge_count())
        .map(|e| network.topology_graph.edge_weight(e).unwrap().edge_id)
        .collect()
}

#[test]
fn mod_test_transit_network() {
    let mut network = TransitNetwork::new();

    let node1 = node(1, 0, 0);
    let node2 = node(2, 1, 1);

    let node1_id = network.add_node(node1).unwrap();
    let node2_id = network.add_node(node2).unwrap();

    assert_eq!(node1_id, 1);
    assert_eq!(node2_id, 2);

    let edge = edge(1, 1, 2, vec![Point { x: 0, y: 0 }, Point { x: 1, y: 1 }]);

    network.add_edge(edge).unwrap();

    assert_eq!(network.physical_graph.edge_count(), 1);

    assert_eq!(network.topology_graph.node_count(), 4);
    assert_eq!(network.topology_graph.edge_count(), 2);
}

#[test]
fn transit_network_test_transit_network() {
    let mut network = TransitNetwork::new();

    let node1_id = network.add_node(node(1, 0, 0)).unwrap();
    let node2_id = network.add_node(node(2, 1, 1)).unwrap();

    assert_eq!(node1_id, 1);
    assert_eq!(node2_id, 2);

    let edge = edge(1, 1, 2, vec![Point { x: 0, y: 0 }, Point { x: 1, y: 1 }]);
    network.add_edge(edge).unwrap();

    assert_eq!(network.physical_graph.edge_count(), 1);
    assert_eq!(network.topology_graph.node_count(), 4);
    assert_eq!(network.topology_graph.edge_count(), 2);
}

#[test]
fn mod_test_transit_network_edge_addition() {
    let mut network = TransitNetwork::new();

    network.add_node(node(1, 0, 0)).unwrap();
    network.add_node(node(2, 1, 1)).unwrap();
    network.add_node(node(3, 2, 2)).unwrap();

    let edge1 = edge(1, 1, 2, vec![Point { x: 0, y: 0 }, Point { x: 1, y: 1 }]);
    let edge2 = edge(2, 2, 3, vec![Point { x: 0, y: 0 }, Point { x: 2, y: 2 }]);

    network.add_edge(edge1).unwrap();
    network.add_edge(edge2).unwrap();

    assert_eq!(network.physical_graph.edge_count(), 2);

    assert_eq!(network.topology_graph.node_count(), 6);
    assert_eq!(network.topology_graph.edge_count(), 4);

    assert_eq!(topo_edge_ids(&network), vec![1, 1, 2, 2]);
}

#[test]
fn transit_network_test_transit_network_edge_addition() {
    let mut network = TransitNetwork::new();

    network.add_node(node(1, 0, 0)).unwrap();
    network.add_node(node(2, 1, 1)).unwrap();
    network.add_node(node(3, 2, 2)).unwrap();

    network.add_edge(edge(1, 1, 2, vec![Point { x: 0, y: 0 }, Point { x: 1, y: 1 }])).unwrap();
    network.add_edge(edge(2, 2, 3, vec![Point { x: 0, y: 0 }, Point { x: 2, y: 2 }])).unwrap();

    assert_eq!(network.physical_graph.edge_count(), 2);
    assert_eq!(network.topology_graph.node_count(), 6);
    assert_eq!(network.topology_graph.edge_count(), 4);
}

#[test]
fn mod_test_add_edge_with_accessibility() {
    let mut network = TransitNetwork::new();

    network.add_node(node(0, 0, 0)).unwrap();
    network.add_node(node(1, 1, 1)).unwrap();
    network.add_node(node(2, 2, 2)).unwrap();
    network.add_node(node(3, 3, 3)).unwrap();
    network.add_node(node(4, 4, 4)).unwrap();

    let edge01 = edge(1, 0, 1, vec![Point { x: 0, y: 0 }, Point { x: 1, y: 1 }]);
    let edge14 = edge(2, 1, 4, vec![Point { x: 1, y: 1 }, Point { x: 4, y: 4 }]);
    let edge12 = edge(3, 1, 2, vec![Point { x: 1, y: 1 }, Point { x: 2, y: 2 }]);
    let edge13 = edge(4, 1, 3, vec![Point { x: 1, y: 1 }, Point { x: 3, y: 3 }]);

    network.add_edge(edge01).unwrap();
    network.add_edge(edge14).unwrap();
    network.add_edge(edge12).unwrap();
    network.add_edge(edge13).unwrap();

    let edge40 = edge(5, 4, 0, vec![Point { x: 4, y: 4 }, Point { x: 0, y: 0 }]);

    network
        .add_edge_with_accessibility(edge40, Accessability::ReachableNodes(vec![2, 3]))
        .unwrap();

    assert_eq!(network.physical_graph.edge_count(), 5);

    assert_eq!(network.topology_graph.node_count(), 10);
    assert_eq!(network.topology_graph.edge_count(), 10);

    assert_eq!(topo_edge_ids(&network), vec![1, 1, 2, 2, 3, 3, 4, 4, 5, 5]);
}

#[test]
fn mod_test_default() {
    let network = TransitNetwork::default();

    assert_eq!(network.physical_graph.node_count(), 0);
    assert_eq!(network.physical_graph.edge_count(), 0);
    assert_eq!(network.topology_graph.node_count(), 0);
    assert_eq!(network.topology_graph.edge_count(), 0);
}

#[test]
fn repair_test_transit_network_edge_addition() {
    let mut network = TransitNetwork::new();

    network.add_node(node(1, 0, 0)).unwrap();
    network.add_node(node(2, 1, 1)).unwrap();
    network.add_node(node(3, 2, 2)).unwrap();

    let edge1 = edge(1, 1, 2, vec![Point { x: 0, y: 0 }, Point { x: 1, y: 1 }]);
    let edge2 = edge(2, 2, 3, vec![Point { x: 0, y: 0 }, Point { x: 2, y: 2 }]);

    network.add_edge(edge1).unwrap();
    network.add_edge(edge2).unwrap();

    assert_eq!(network.physical_graph.edge_count(), 2);

    assert_eq!(network.topology_graph.node_count(), 6);
    assert_eq!(network.topology_graph.edge_count(), 4);

    assert_eq!(topo_edge_ids(&network), vec![1, 1, 2, 2]);

    network.repair();
}

#[test]
fn test_dual_counts_track_insertions() {
    // The topological graph always holds twice as many nodes and edges
    // as the physical graph.
    let mut network = TransitNetwork::new();
    for id in 0..6u64 {
        network.add_node(node(id, id as i32, 0)).unwrap();
        assert_eq!(network.topology_graph.node_count(), 2 * network.physical_graph.node_count());
    }
    for (eid, (a, b)) in [(1u64, (0u64, 1u64)), (2, (1, 2)), (3, (2, 3)), (4, (3, 4)), (5, (4, 5))] {
        let path = vec![Point { x: a as i32, y: 0 }, Point { x: b as i32, y: 0 }];
        network.add_edge(edge(eid, a, b, path)).unwrap();
        assert_eq!(network.topology_graph.edge_count(), 2 * network.physical_graph.edge_count());
    }
}

#[test]
fn test_network_repair_reorders_reversed_path() {
    let mut network = TransitNetwork::new();
    network.add_node(node(1, 0, 0)).unwrap();
    network.add_node(node(2, 1, 1)).unwrap();
    // The path is inserted back to front.
    network.add_edge(edge(1, 1, 2, vec![Point { x: 1, y: 1 }, Point { x: 0, y: 0 }])).unwrap();

    network.repair();

    let repaired = network.physical_graph.get_transit_edge(1, 2).unwrap();
    assert_eq!(repaired.path, vec![Point { x: 0, y: 0 }, Point { x: 1, y: 1 }]);
}

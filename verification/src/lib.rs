//! Transit-network modeling library.
//!
//! A transit network is kept at two levels at once: an undirected
//! *physical* graph of stops and geometric edges, and a directed
//! *topological* graph in which every physical node is doubled into an
//! in-slot and an out-slot and every physical edge into a forward and a
//! mirror edge.  The topological layer encodes traversal direction and
//! switch-like accessibility constraints; a repair procedure corrects
//! inconsistently directed dual edges, and an accessibility-aware
//! shortest-path search runs on top of the repaired structure.

pub mod accessability;
pub mod base;
pub mod edge;
pub mod network;
pub mod node_accessability;
pub mod physical;
pub mod routing;
pub mod topology;
pub mod topology_repair;

pub use accessability::Accessability;
pub use base::{Direction, IdType, NetworkError, NodeId, Point, TransitNode};
pub use edge::{EdgeId, PathCoordinates, TransitEdge};
pub use network::{TransitNetwork, TransitNetworkModifier, TransitNetworkRepairer};
pub use node_accessability::NodeAccessability;
pub use physical::PhysicalGraph;
pub use routing::{EdgeCost, LengthCost, ShortestPath, ShortestPathWithAccessability, UnitCost};
pub use topology::{TopoEdge, TopoNode, TopologyGraph};
pub use topology_repair::TopologyGraphRepairer;

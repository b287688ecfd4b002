//! An earlier accessibility variant kept for API compatibility.

use crate::base::NodeId;
use vstd::prelude::*;

verus! {

/// Enum representing the accessibility of nodes in the network.
///
/// There are two variants:
/// - `ReachableNodes` contains the node IDs that can be reached from a
///   given node.
/// - `UnreachableNodes` contains the node IDs that cannot be reached from
///   a given node.
pub enum NodeAccessability {
    /// A variant holding a vector of reachable node IDs.
    ReachableNodes(Vec<NodeId>),
    /// A variant holding a vector of unreachable node IDs.
    UnreachableNodes(Vec<NodeId>),
}

impl NodeAccessability {
    /// The node identifiers carried by whichever variant is active.
    pub open spec fn spec_nodes(self) -> Seq<NodeId> {
        match self {
            NodeAccessability::ReachableNodes(nodes) => nodes@,
            NodeAccessability::UnreachableNodes(nodes) => nodes@,
        }
    }

    /// Whether the value is the `ReachableNodes` variant.
    pub open spec fn is_reachable_variant(self) -> bool {
        match self {
            NodeAccessability::ReachableNodes(_) => true,
            NodeAccessability::UnreachableNodes(_) => false,
        }
    }

    /// Returns a reference to the vector of reachable nodes if this is
    /// the `ReachableNodes` variant, and `None` otherwise.
    pub fn reachable_nodes(&self) -> (r: Option<&Vec<NodeId>>)
        ensures
            match r {
                Some(nodes) => self.is_reachable_variant() && nodes@ == self.spec_nodes(),
                None => !self.is_reachable_variant(),
            },
    {
        match self {
            NodeAccessability::ReachableNodes(nodes) => Some(nodes),
            _ => None,
        }
    }

    /// Returns a reference to the vector of unreachable nodes if this is
    /// the `UnreachableNodes` variant, and `None` otherwise.
    pub fn unreachable_nodes(&self) -> (r: Option<&Vec<NodeId>>)
        ensures
            match r {
                Some(nodes) => !self.is_reachable_variant() && nodes@ == self.spec_nodes(),
                None => self.is_reachable_variant(),
            },
    {
        match self {
            NodeAccessability::UnreachableNodes(nodes) => Some(nodes),
            _ => None,
        }
    }
}

} // verus!

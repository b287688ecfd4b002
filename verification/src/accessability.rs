//! Per-edge accessibility constraints.

use crate::base::NodeId;
use vstd::prelude::*;

verus! {

/// Enum `Accessability` representing the accessibility of nodes in a
/// network.
///
/// * `ReachableNodes` holds the nodes from which the constrained edge may
///   be used: travel must have passed through one of them.
/// * `UnreachableNodes` holds the dual: nodes that must stay unreachable,
///   so travel towards one of them must avoid the constrained edge.
///
/// Exactly one of the two variants is active per edge at insertion time.
#[derive(Clone, Debug, PartialEq, Eq)]
pub enum Accessability {
    /// A variant holding a vector of reachable node IDs.
    ReachableNodes(Vec<NodeId>),
    /// A variant holding a vector of unreachable node IDs.
    UnreachableNodes(Vec<NodeId>),
}

impl Accessability {
    /// The node identifiers carried by whichever variant is active.
    pub open spec fn spec_nodes(self) -> Seq<NodeId> {
        match self {
            Accessability::ReachableNodes(nodes) => nodes@,
            Accessability::UnreachableNodes(nodes) => nodes@,
        }
    }

    /// Whether the value is the `ReachableNodes` variant.
    pub open spec fn is_reachable_variant(self) -> bool {
        match self {
            Accessability::ReachableNodes(_) => true,
            Accessability::UnreachableNodes(_) => false,
        }
    }

    /// Whether `id` is named unreachable by this value: the value is the
    /// `UnreachableNodes` variant and lists `id`.
    pub open spec fn spec_blocks(self, id: NodeId) -> bool {
        match self {
            Accessability::ReachableNodes(_) => false,
            Accessability::UnreachableNodes(nodes) => nodes@.contains(id),
        }
    }

    /// Returns a reference to the vector of reachable nodes if this is
    /// the `ReachableNodes` variant, and `None` otherwise.
    pub fn reachable_nodes(&self) -> (r: Option<&Vec<NodeId>>)
        ensures
            match r {
                Some(nodes) => self.is_reachable_variant() && nodes@ == self.spec_nodes(),
                None => !self.is_reachable_variant(),
            },
    {
        match self {
            Accessability::ReachableNodes(nodes) => Some(nodes),
            _ => None,
        }
    }

    /// Returns a reference to the vector of unreachable nodes if this is
    /// the `UnreachableNodes` variant, and `None` otherwise.
    pub fn unreachable_nodes(&self) -> (r: Option<&Vec<NodeId>>)
        ensures
            match r {
                Some(nodes) => !self.is_reachable_variant() && nodes@ == self.spec_nodes(),
                None => self.is_reachable_variant(),
            },
    {
        match self {
            Accessability::UnreachableNodes(nodes) => Some(nodes),
            _ => None,
        }
    }
}

} // verus!

//! The geometric edge type of the physical graph.

use crate::base::{IdType, NodeId, Point};
use vstd::prelude::*;

verus! {

/// Type alias for an edge identifier.
pub type EdgeId = IdType;

/// Structure representing a connection between two `TransitNode`
/// instances.
///
/// Each edge has a unique identifier, the identifiers of its two
/// endpoint nodes, a length, and a path: the ordered sequence of
/// coordinates the connection runs through.  The path's first and last
/// points are expected to coincide with the source and target locations,
/// in that order; `PhysicalGraph::repair_edge` restores that order when
/// it is violated.
#[derive(Clone, Debug, PartialEq, Eq)]
pub struct TransitEdge {
    /// A unique identifier for the edge.
    pub id: EdgeId,
    /// The identifier of the node where the edge starts.
    pub source: NodeId,
    /// The identifier of the node where the edge ends.
    pub target: NodeId,
    /// The length of the edge.
    pub length: u64,
    /// The path of the edge, as an ordered sequence of coordinates.
    pub path: Vec<Point>,
}

/// The mathematical model of a `TransitEdge`: the same fields with the
/// path as a sequence.
#[verifier::ext_equal]
pub struct EdgeModel {
    /// A unique identifier for the edge.
    pub id: EdgeId,
    /// The identifier of the node where the edge starts.
    pub source: NodeId,
    /// The identifier of the node where the edge ends.
    pub target: NodeId,
    /// The length of the edge.
    pub length: u64,
    /// The path of the edge.
    pub path: Seq<Point>,
}

impl View for TransitEdge {
    type V = EdgeModel;

    open spec fn view(&self) -> EdgeModel {
        EdgeModel {
            id: self.id,
            source: self.source,
            target: self.target,
            length: self.length,
            path: self.path@,
        }
    }
}

impl DeepView for TransitEdge {
    type V = EdgeModel;

    open spec fn deep_view(&self) -> EdgeModel {
        self.view()
    }
}

impl Default for TransitEdge {
    /// An edge with all identifiers zero, zero length and an empty path.
    fn default() -> (r: Self)
        ensures
            r.id == 0 && r.source == 0 && r.target == 0 && r.length == 0,
            r.path@ == Seq::<Point>::empty(),
    {
        TransitEdge { id: 0, source: 0, target: 0, length: 0, path: Vec::new() }
    }
}

/// Trait providing a way to get the coordinates of the source and target
/// ends of a path.
///
/// `PathCoordinates` can be implemented by any type that has a source
/// and a target coordinate.  It is useful in graph algorithms that need
/// the start and end point of an edge.
pub trait PathCoordinates {
    /// Whether the value carries enough geometry for its end
    /// coordinates to exist.
    spec fn coordinates_ready(&self) -> bool;

    /// The coordinate at the source end.
    spec fn spec_source_coordinate(&self) -> Point;

    /// The coordinate at the target end.
    spec fn spec_target_coordinate(&self) -> Point;

    /// Returns the source coordinate of the path.
    fn source_coordinate(&self) -> (r: Point)
        requires
            self.coordinates_ready(),
        ensures
            r == self.spec_source_coordinate(),
    ;

    /// Returns the target coordinate of the path.
    fn target_coordinate(&self) -> (r: Point)
        requires
            self.coordinates_ready(),
        ensures
            r == self.spec_target_coordinate(),
    ;
}

impl PathCoordinates for TransitEdge {
    /// The path must hold at least one coordinate.
    open spec fn coordinates_ready(&self) -> bool {
        self.path@.len() > 0
    }

    /// The first point of the path.
    open spec fn spec_source_coordinate(&self) -> Point {
        self.path@[0]
    }

    /// The last point of the path.
    open spec fn spec_target_coordinate(&self) -> Point {
        self.path@[self.path@.len() - 1]
    }

    fn source_coordinate(&self) -> (r: Point) {
        self.path[0]
    }

    fn target_coordinate(&self) -> (r: Point) {
        self.path[self.path.len() - 1]
    }
}

} // verus!

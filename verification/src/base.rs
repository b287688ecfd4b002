//! Core identifier, coordinate and error types shared by the whole
//! library.

use vstd::prelude::*;

verus! {

/// Type alias for an identifier.
pub type IdType = u64;

/// Type alias for a node identifier.  Node identifiers are chosen by the
/// caller and are unique within a graph.
pub type NodeId = IdType;

/// A planar location with integer coordinates.  Only distance
/// *comparisons* are ever needed by the library, so locations carry exact
/// integer coordinates and distances are compared through their squares.
#[derive(Clone, Copy, Debug, PartialEq, Eq, Structural)]
pub struct Point {
    /// Horizontal coordinate.
    pub x: i32,
    /// Vertical coordinate.
    pub y: i32,
}

impl Point {
    /// The squared Euclidean distance between two points, as a
    /// mathematical integer.
    pub open spec fn spec_sq_dist(self, other: Point) -> int {
        (self.x - other.x) * (self.x - other.x) + (self.y - other.y) * (self.y - other.y)
    }

    /// Squared Euclidean distance to `other`.  Squares preserve the
    /// ordering of non-negative distances, so comparisons of squared
    /// distances decide which of two points is nearer.
    pub fn sq_dist(&self, other: &Point) -> (r: u128)
        ensures
            r as int == self.spec_sq_dist(*other),
    {
        let dx: i128 = self.x as i128 - other.x as i128;
        let dy: i128 = self.y as i128 - other.y as i128;
        proof {
            assert(0 <= dx * dx <= 0x100000000i128 * 0x100000000i128)
                by (nonlinear_arith)
                requires -0x100000000i128 < dx < 0x100000000i128;
            assert(0 <= dy * dy <= 0x100000000i128 * 0x100000000i128)
                by (nonlinear_arith)
                requires -0x100000000i128 < dy < 0x100000000i128;
        }
        (dx * dx + dy * dy) as u128
    }
}

/// Structure representing a node in the transit network.
///
/// Each node has a unique identifier and a location.  Nodes are created
/// once and never change afterwards.
#[derive(Clone, Copy, Debug, PartialEq, Eq, Structural)]
pub struct TransitNode {
    /// A unique identifier for the node.
    pub id: NodeId,
    /// The location of the node.
    pub location: Point,
}

/// The direction of an edge relative to a node of the directed
/// topological graph.
#[derive(Clone, Copy, Debug, PartialEq, Eq, Structural)]
pub enum Direction {
    /// Edges that leave the node.
    Outgoing,
    /// Edges that arrive at the node.
    Incoming,
}

impl Direction {
    /// The opposite direction.
    pub open spec fn spec_opposite(self) -> Direction {
        match self {
            Direction::Outgoing => Direction::Incoming,
            Direction::Incoming => Direction::Outgoing,
        }
    }

    /// Returns the opposite direction.
    pub fn opposite(&self) -> (r: Direction)
        ensures
            r == self.spec_opposite(),
    {
        match self {
            Direction::Outgoing => Direction::Incoming,
            Direction::Incoming => Direction::Outgoing,
        }
    }
}

/// The ways in which a request to the library can be rejected instead of
/// aborting.  Lookup failures and construction-order mistakes are
/// reported through these variants at the public boundary.
#[derive(Clone, Copy, Debug, PartialEq, Eq, Structural)]
pub enum NetworkError {
    /// A node with the same identifier is already present.
    DuplicateNode,
    /// A referenced node identifier is not present.
    UnknownNode,
    /// An edge was given with an empty coordinate path.
    EmptyPath,
    /// No topological slot combination satisfies the requested
    /// accessibility constraint.
    NoSlotAvailable,
    /// The two directed edges of a dual edge must run between the dual
    /// pairs of the same two nodes, in opposite directions.
    MismatchedPair,
}

} // verus!

//! The undirected physical layer of the transit network.

use crate::base::{NetworkError, NodeId, TransitNode};
use crate::edge::{EdgeModel, TransitEdge};
use vstd::prelude::*;

verus! {

/// The mathematical model of a `PhysicalGraph`: the node arena and the
/// edge arena as sequences.
#[verifier::ext_equal]
pub struct PhysModel {
    /// The nodes, in insertion order.
    pub nodes: Seq<TransitNode>,
    /// The edges, in insertion order.
    pub edges: Seq<EdgeModel>,
}

/// Whether `id` names a node of `m`.
pub open spec fn phys_has_node(m: PhysModel, id: NodeId) -> bool {
    exists|i: int| 0 <= i < m.nodes.len() && (#[trigger] m.nodes[i]).id == id
}

/// The arena index of the node named `id`.
pub open spec fn phys_index_of(m: PhysModel, id: NodeId) -> int {
    choose|i: int| 0 <= i < m.nodes.len() && (#[trigger] m.nodes[i]).id == id
}

/// Whether edge `e` of `m` joins `a` and `b`, in either orientation.
pub open spec fn phys_edge_between(m: PhysModel, e: int, a: NodeId, b: NodeId) -> bool {
    &&& 0 <= e < m.edges.len()
    &&& {
        ||| (m.edges[e].source == a && m.edges[e].target == b)
        ||| (m.edges[e].source == b && m.edges[e].target == a)
    }
}

/// Whether some edge of `m` joins `a` and `b`.
pub open spec fn phys_has_edge_between(m: PhysModel, a: NodeId, b: NodeId) -> bool {
    exists|e: int| #[trigger] phys_edge_between(m, e, a, b)
}

/// Whether `e` is the least-index edge of `m` joining `a` and `b`.
pub open spec fn phys_is_first_edge_between(m: PhysModel, a: NodeId, b: NodeId, e: int) -> bool {
    &&& phys_edge_between(m, e, a, b)
    &&& forall|f: int| 0 <= f < e ==> !phys_edge_between(m, f, a, b)
}

/// The least-index edge of `m` joining `a` and `b`.
pub open spec fn phys_first_edge_between(m: PhysModel, a: NodeId, b: NodeId) -> int {
    choose|e: int| phys_is_first_edge_between(m, a, b, e)
}

/// Well-formedness of the physical layer: node identifiers are unique,
/// and every edge joins two present nodes through a non-empty path.
pub open spec fn phys_wf(m: PhysModel) -> bool {
    &&& forall|i: int, j: int|
        0 <= i < m.nodes.len() && 0 <= j < m.nodes.len()
            && (#[trigger] m.nodes[i]).id == (#[trigger] m.nodes[j]).id ==> i == j
    &&& forall|e: int|
        0 <= e < m.edges.len() ==> {
            &&& phys_has_node(m, (#[trigger] m.edges[e]).source)
            &&& phys_has_node(m, m.edges[e].target)
            &&& m.edges[e].path.len() >= 1
        }
}

/// The edge stored at `e`, with its path reversed when its last point
/// lies nearer to the location of node `a` than its first point does.
pub open spec fn phys_repaired_edge(m: PhysModel, a: NodeId, e: int) -> EdgeModel {
    let loc = m.nodes[phys_index_of(m, a)].location;
    let old_edge = m.edges[e];
    let first = old_edge.path[0];
    let last = old_edge.path[old_edge.path.len() - 1];
    if loc.spec_sq_dist(first) > loc.spec_sq_dist(last) {
        EdgeModel { path: old_edge.path.reverse(), ..old_edge }
    } else {
        old_edge
    }
}

/// A node present in a model stays present in any model whose node
/// sequence extends the first one's.
pub proof fn lemma_has_node_extend(m0: PhysModel, m1: PhysModel, id: NodeId)
    requires
        phys_has_node(m0, id),
        m0.nodes.len() <= m1.nodes.len(),
        forall|i: int| 0 <= i < m0.nodes.len() ==> m1.nodes[i] == #[trigger] m0.nodes[i],
    ensures
        phys_has_node(m1, id),
{
    let i = choose|i: int| 0 <= i < m0.nodes.len() && (#[trigger] m0.nodes[i]).id == id;
    assert(m1.nodes[i].id == id);
}

/// Represents the physical layout of the transit network.
///
/// `PhysicalGraph` is an undirected graph in which each node is a
/// transit node (a point of the network where a vehicle can stop) and
/// each edge is a transit edge (a geometric path between two transit
/// nodes).  Nodes and edges are held in owned arenas in insertion
/// order; a node's arena index and its caller-chosen identifier are
/// translated into one another by `id_to_index` and `index_to_id`.
/// Several edges may join the same pair of nodes.
pub struct PhysicalGraph {
    nodes: Vec<TransitNode>,
    edges: Vec<TransitEdge>,
}

impl View for PhysicalGraph {
    type V = PhysModel;

    closed spec fn view(&self) -> PhysModel {
        PhysModel { nodes: self.nodes@, edges: self.edges.deep_view() }
    }
}

impl PhysicalGraph {
    /// Well-formedness of this graph.
    pub open spec fn wf(&self) -> bool {
        phys_wf(self@)
    }

    /// Creates a new, empty `PhysicalGraph`.
    pub fn new() -> (r: Self)
        ensures
            r@.nodes.len() == 0 && r@.edges.len() == 0,
            r.wf(),
    {
        PhysicalGraph { nodes: Vec::new(), edges: Vec::new() }
    }

    /// The number of nodes.
    pub fn node_count(&self) -> (r: usize)
        ensures
            r == self@.nodes.len(),
    {
        self.nodes.len()
    }

    /// The number of edges.
    pub fn edge_count(&self) -> (r: usize)
        ensures
            r == self@.edges.len(),
    {
        self.edges.len()
    }

    /// Converts an arena index to the identifier of the node stored
    /// there, or `None` when no node is stored there.
    pub fn index_to_id(&self, index: usize) -> (r: Option<NodeId>)
        ensures
            match r {
                Some(id) => index < self@.nodes.len() && id == self@.nodes[index as int].id,
                None => index >= self@.nodes.len(),
            },
    {
        if index < self.nodes.len() {
            Some(self.nodes[index].id)
        } else {
            None
        }
    }

    /// Converts a node identifier to its arena index, or `None` when no
    /// node carries that identifier.
    pub fn id_to_index(&self, id: NodeId) -> (r: Option<usize>)
        ensures
            match r {
                Some(i) => i < self@.nodes.len() && self@.nodes[i as int].id == id,
                None => !phys_has_node(self@, id),
            },
    {
        let n = self.nodes.len();
        let mut i: usize = 0;
        while i < n
            invariant
                n == self@.nodes.len(),
                i <= n,
                forall|j: int| 0 <= j < i ==> (#[trigger] self@.nodes[j]).id != id,
            decreases n - i,
        {
            if self.nodes[i].id == id {
                return Some(i);
            }
            i += 1;
        }
        None
    }

    /// Adds a `TransitNode` to the graph and returns its arena index.
    ///
    /// A node whose identifier is already present is rejected with
    /// `DuplicateNode`, and exactly then.
    pub fn add_transit_node(&mut self, node: TransitNode) -> (r: Result<usize, NetworkError>)
        requires
            old(self).wf(),
        ensures
            final(self).wf(),
            match r {
                Ok(i) => {
                    &&& !phys_has_node(old(self)@, node.id)
                    &&& i == old(self)@.nodes.len()
                    &&& final(self)@.nodes == old(self)@.nodes.push(node)
                    &&& final(self)@.edges == old(self)@.edges
                },
                Err(e) => {
                    &&& e == NetworkError::DuplicateNode
                    &&& phys_has_node(old(self)@, node.id)
                    &&& final(self)@ == old(self)@
                },
            },
    {
        if self.id_to_index(node.id).is_some() {
            return Err(NetworkError::DuplicateNode);
        }
        let i = self.nodes.len();
        let ghost m0 = self@;
        self.nodes.push(node);
        proof {
            let m1 = final(self)@;
            assert(m1.edges =~= m0.edges);
            assert forall|p: int, q: int|
                0 <= p < m1.nodes.len() && 0 <= q < m1.nodes.len()
                    && (#[trigger] m1.nodes[p]).id == (#[trigger] m1.nodes[q]).id implies p == q by {
                if p < m0.nodes.len() {
                    assert(m1.nodes[p] == m0.nodes[p]);
                }
                if q < m0.nodes.len() {
                    assert(m1.nodes[q] == m0.nodes[q]);
                }
            }
            assert forall|e: int| 0 <= e < m1.edges.len() implies {
                &&& phys_has_node(m1, (#[trigger] m1.edges[e]).source)
                &&& phys_has_node(m1, m1.edges[e].target)
                &&& m1.edges[e].path.len() >= 1
            } by {
                assert(m1.edges[e] == m0.edges[e]);
                lemma_has_node_extend(m0, m1, m0.edges[e].source);
                lemma_has_node_extend(m0, m1, m0.edges[e].target);
            }
        }
        Ok(i)
    }

    /// Adds a `TransitEdge` to the graph and returns its arena index.
    ///
    /// The edge is rejected with `UnknownNode` when either endpoint
    /// identifier is absent, and with `EmptyPath` when both endpoints
    /// are present but the edge carries no coordinates; it is accepted
    /// exactly otherwise.
    pub fn add_transit_edge(&mut self, edge: TransitEdge) -> (r: Result<usize, NetworkError>)
        requires
            old(self).wf(),
        ensures
            final(self).wf(),
            match r {
                Ok(i) => {
                    &&& phys_has_node(old(self)@, edge.source)
                    &&& phys_has_node(old(self)@, edge.target)
                    &&& edge.path@.len() >= 1
                    &&& i == old(self)@.edges.len()
                    &&& final(self)@.nodes == old(self)@.nodes
                    &&& final(self)@.edges == old(self)@.edges.push(edge@)
                },
                Err(e) => {
                    &&& final(self)@ == old(self)@
                    &&& (e == NetworkError::UnknownNode || e == NetworkError::EmptyPath)
                    &&& (e == NetworkError::UnknownNode <==> (!phys_has_node(old(self)@, edge.source)
                        || !phys_has_node(old(self)@, edge.target)))
                    &&& (e == NetworkError::EmptyPath <==> (phys_has_node(old(self)@, edge.source)
                        && phys_has_node(old(self)@, edge.target) && edge.path@.len() == 0))
                },
            },
    {
        let si = self.id_to_index(edge.source);
        let ti = self.id_to_index(edge.target);
        if si.is_none() || ti.is_none() {
            return Err(NetworkError::UnknownNode);
        }
        if edge.path.len() == 0 {
            return Err(NetworkError::EmptyPath);
        }
        proof {
            assert(phys_has_node(self@, edge.source));
            assert(phys_has_node(self@, edge.target));
        }
        let i = self.edges.len();
        let ghost m0 = self@;
        let ghost pushed = edge@;
        self.edges.push(edge);
        proof {
            let m1 = final(self)@;
            assert(m1.nodes == m0.nodes);
            assert(m1.edges =~= m0.edges.push(pushed));
            assert forall|e: int| 0 <= e < m1.edges.len() implies {
                &&& phys_has_node(m1, (#[trigger] m1.edges[e]).source)
                &&& phys_has_node(m1, m1.edges[e].target)
                &&& m1.edges[e].path.len() >= 1
            } by {
                if e < m0.edges.len() {
                    assert(m1.edges[e] == m0.edges[e]);
                    lemma_has_node_extend(m0, m1, m0.edges[e].source);
                    lemma_has_node_extend(m0, m1, m0.edges[e].target);
                } else {
                    assert(m1.edges[e] == pushed);
                    lemma_has_node_extend(m0, m1, pushed.source);
                    lemma_has_node_extend(m0, m1, pushed.target);
                }
            }
        }
        Ok(i)
    }

    /// Returns a reference to the edge stored at arena index `index`,
    /// or `None` when no edge is stored there.
    pub fn transit_edge_at(&self, index: usize) -> (r: Option<&TransitEdge>)
        ensures
            match r {
                Some(edge) => index < self@.edges.len() && edge@ == self@.edges[index as int],
                None => index >= self@.edges.len(),
            },
    {
        if index < self.edges.len() {
            Some(&self.edges[index])
        } else {
            None
        }
    }

    /// Returns a reference to the first edge joining `node1` and
    /// `node2`, in either orientation, or `None` when the nodes are not
    /// connected.
    pub fn get_transit_edge(&self, node1: NodeId, node2: NodeId) -> (r: Option<&TransitEdge>)
        ensures
            match r {
                Some(edge) => edge@ == self@.edges[phys_first_edge_between(self@, node1, node2)]
                    && phys_has_edge_between(self@, node1, node2),
                None => !phys_has_edge_between(self@, node1, node2),
            },
    {
        match self.find_edge_between(node1, node2) {
            Some(e) => {
                proof {
                    lemma_first_edge_unique(self@, node1, node2, e as int);
                }
                Some(&self.edges[e])
            },
            None => None,
        }
    }

    /// The arena index of the first edge joining `node1` and `node2`,
    /// in either orientation.
    pub fn find_edge_between(&self, node1: NodeId, node2: NodeId) -> (r: Option<usize>)
        ensures
            match r {
                Some(e) => phys_is_first_edge_between(self@, node1, node2, e as int),
                None => !phys_has_edge_between(self@, node1, node2),
            },
    {
        let n = self.edges.len();
        let mut e: usize = 0;
        while e < n
            invariant
                n == self@.edges.len(),
                e <= n,
                forall|f: int| 0 <= f < e ==> !phys_edge_between(self@, f, node1, node2),
            decreases n - e,
        {
            let s = self.edges[e].source;
            let t = self.edges[e].target;
            if (s == node1 && t == node2) || (s == node2 && t == node1) {
                return Some(e);
            }
            e += 1;
        }
        None
    }

    /// Reorders the path of the first edge between `node1` and `node2`
    /// so that it starts at (or nearer to) the location of `node1`: when
    /// the path's last point lies strictly nearer to that location than
    /// its first point, the whole point sequence is reversed, and
    /// otherwise the edge is left as it is.
    pub fn repair_edge(&mut self, node1: NodeId, node2: NodeId)
        requires
            old(self).wf(),
            phys_has_node(old(self)@, node1),
            phys_has_node(old(self)@, node2),
            phys_has_edge_between(old(self)@, node1, node2),
        ensures
            final(self).wf(),
            final(self)@.nodes == old(self)@.nodes,
            phys_is_first_edge_between(
                old(self)@,
                node1,
                node2,
                phys_first_edge_between(old(self)@, node1, node2),
            ),
            final(self)@.edges == old(self)@.edges.update(
                phys_first_edge_between(old(self)@, node1, node2),
                phys_repaired_edge(old(self)@, node1, phys_first_edge_between(old(self)@, node1, node2)),
            ),
    {
        let ghost old_model = self@;
        let node1_index = match self.id_to_index(node1) {
            Some(i) => i,
            None => {
                proof {
                    assert(false);
                }
                0
            },
        };
        let loc = self.nodes[node1_index].location;
        proof {
            assert(old_model.nodes[phys_index_of(old_model, node1)].id == node1);
            assert(loc == old_model.nodes[phys_index_of(old_model, node1)].location);
        }
        let e = match self.find_edge_between(node1, node2) {
            Some(e) => e,
            None => {
                proof {
                    assert(false);
                }
                0
            },
        };
        proof {
            lemma_first_edge_unique(old_model, node1, node2, e as int);
        }
        let path_len = self.edges[e].path.len();
        let dist_to_first = loc.sq_dist(&self.edges[e].path[0]);
        let dist_to_last = loc.sq_dist(&self.edges[e].path[path_len - 1]);
        if dist_to_first > dist_to_last {
            let mut reversed: Vec<crate::base::Point> = Vec::new();
            let mut i: usize = path_len;
            while i > 0
                invariant
                    self@ == old_model,
                    e < self@.edges.len(),
                    path_len == self@.edges[e as int].path.len(),
                    i <= path_len,
                    reversed@.len() == path_len - i,
                    forall|j: int| 0 <= j < reversed@.len()
                        ==> reversed@[j] == self@.edges[e as int].path[path_len - 1 - j],
                decreases i,
            {
                i -= 1;
                let p = self.edges[e].path[i];
                reversed.push(p);
            }
            proof {
                assert(reversed@ =~= old_model.edges[e as int].path.reverse());
            }
            self.edges[e].path = reversed;
            proof {
                assert(final(self)@.edges =~= old_model.edges.update(
                    e as int,
                    phys_repaired_edge(old_model, node1, e as int),
                ));
                lemma_update_keeps_phys_wf(old_model, final(self)@, e as int);
            }
        } else {
            proof {
                assert(final(self)@.edges =~= old_model.edges.update(
                    e as int,
                    phys_repaired_edge(old_model, node1, e as int),
                ));
            }
        }
    }
}

impl Default for PhysicalGraph {
    /// A new, empty `PhysicalGraph`.
    fn default() -> (r: Self)
        ensures
            r@.nodes.len() == 0 && r@.edges.len() == 0,
            r.wf(),
    {
        PhysicalGraph::new()
    }
}

/// The least-index edge between two nodes is unique, so any index that
/// satisfies `phys_is_first_edge_between` is `phys_first_edge_between`.
pub proof fn lemma_first_edge_unique(m: PhysModel, a: NodeId, b: NodeId, e: int)
    requires
        phys_is_first_edge_between(m, a, b, e),
    ensures
        phys_first_edge_between(m, a, b) == e,
        phys_has_edge_between(m, a, b),
{
    assert(phys_has_edge_between(m, a, b));
    let w = phys_first_edge_between(m, a, b);
    assert(phys_is_first_edge_between(m, a, b, w));
    if w < e {
        assert(!phys_edge_between(m, w, a, b));
    }
    if e < w {
        assert(!phys_edge_between(m, e, a, b));
    }
}

/// Replacing one edge by another with the same endpoints and a path of
/// the same length preserves physical well-formedness.
proof fn lemma_update_keeps_phys_wf(m0: PhysModel, m1: PhysModel, e: int)
    requires
        phys_wf(m0),
        m1.nodes == m0.nodes,
        0 <= e < m0.edges.len(),
        m1.edges == m0.edges.update(e, m1.edges[e]),
        m1.edges[e].source == m0.edges[e].source,
        m1.edges[e].target == m0.edges[e].target,
        m1.edges[e].path.len() == m0.edges[e].path.len(),
    ensures
        phys_wf(m1),
{
    assert forall|f: int| 0 <= f < m1.edges.len() implies {
        &&& phys_has_node(m1, (#[trigger] m1.edges[f]).source)
        &&& phys_has_node(m1, m1.edges[f].target)
        &&& m1.edges[f].path.len() >= 1
    } by {
        assert(phys_has_node(m0, m0.edges[f].source));
        assert(phys_has_node(m0, m0.edges[f].target));
        if f != e {
            assert(m1.edges[f] == m0.edges[f]);
        }
        assert(forall|i: int| 0 <= i < m0.nodes.len()
            ==> m1.nodes[i] == #[trigger] m0.nodes[i]);
    }
}

} // verus!

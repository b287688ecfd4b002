//! The transit network: one physical graph and one topological graph,
//! kept consistent.

use crate::accessability::Accessability;
use crate::base::{Direction, NetworkError, NodeId, TransitNode};
use crate::edge::TransitEdge;
use crate::physical::{
    phys_edge_between, phys_first_edge_between, phys_has_edge_between, phys_has_node,
    phys_is_first_edge_between, phys_repaired_edge, phys_wf, PhysModel, PhysicalGraph,
};
use crate::topology::{
    dual_between, mate, node_id_at, spec_default_slot, spec_find_slot, topo_has_pair, topo_wf,
    TopoEdge, TopoModel, TopologyGraph,
};
use crate::topology_repair::{lemma_repair_edge_wf, spec_repair_edge, TopologyGraphRepairer};
use vstd::prelude::*;

verus! {

/// The dual-graph invariant of a transit network.
///
/// Both layers are well-formed on their own; the topological graph
/// holds exactly two nodes per physical node — the dual pair of the
/// `k`-th physical node sits at slots `2k` and `2k + 1` and carries its
/// identifier — and exactly two edges per physical edge — the mirror
/// pair of the `j`-th physical edge sits at `2j` and `2j + 1`, carries
/// its identifier, and runs between the dual pairs of its endpoints.
pub open spec fn net_wf(p: PhysModel, t: TopoModel) -> bool {
    &&& phys_wf(p)
    &&& topo_wf(t)
    &&& t.nodes.len() == 2 * p.nodes.len()
    &&& forall|k: int|
        0 <= k < p.nodes.len() ==> node_id_at(t, 2 * k) == (#[trigger] p.nodes[k]).id
    &&& t.edges.len() == 2 * p.edges.len()
    &&& forall|j: int|
        0 <= j < p.edges.len() ==> {
            &&& t.edges[2 * j].edge_id == (#[trigger] p.edges[j]).id
            &&& dual_between(t, 2 * j, p.edges[j].source, p.edges[j].target)
        }
}

/// Under the dual-graph invariant, a node identifier is physical
/// exactly when it has a topological dual pair.
#[verifier::rlimit(80)]
pub proof fn lemma_net_has_node_iff(p: PhysModel, t: TopoModel, id: NodeId)
    requires
        net_wf(p, t),
    ensures
        phys_has_node(p, id) <==> topo_has_pair(t, id),
{
    if phys_has_node(p, id) {
        let k = choose|k: int| 0 <= k < p.nodes.len() && (#[trigger] p.nodes[k]).id == id;
        assert(node_id_at(t, 2 * k) == id);
        assert(t.nodes[2 * k].node_id == id);
    }
    if topo_has_pair(t, id) {
        let i = choose|i: int|
            0 <= i < t.nodes.len() && i % 2 == 0 && (#[trigger] t.nodes[i]).node_id == id;
        let k = i / 2;
        assert(2 * k == i);
        assert(node_id_at(t, 2 * k) == p.nodes[k].id);
    }
}

/// Under the dual-graph invariant, every topological edge runs between
/// the dual pairs of two physically connected nodes: the physical edge
/// with the same arena pair joins them.
#[verifier::rlimit(80)]
pub proof fn lemma_topo_edge_matches_phys(p: PhysModel, t: TopoModel, e: int)
    requires
        net_wf(p, t),
        0 <= e < t.edges.len(),
    ensures
        phys_has_edge_between(
            p,
            node_id_at(t, t.edges[e].source as int),
            node_id_at(t, t.edges[e].target as int),
        ),
{
    let j = e / 2;
    assert(0 <= j < p.edges.len());
    assert(dual_between(t, 2 * j, p.edges[j].source, p.edges[j].target));
    let a = node_id_at(t, t.edges[e].source as int);
    let b = node_id_at(t, t.edges[e].target as int);
    if e % 2 == 0 {
        assert(2 * j == e);
        assert(phys_edge_between(p, j, a, b));
    } else {
        assert(2 * j == e - 1);
        assert(crate::topology::mirror_ok(t, e - 1));
        assert(phys_edge_between(p, j, a, b));
    }
    assert(phys_has_edge_between(p, a, b));
}

/// Edges kept pointwise and nodes only extended keep `dual_between`.
proof fn lemma_dual_between_stable(t0: TopoModel, t1: TopoModel, e: int, x: NodeId, y: NodeId)
    requires
        dual_between(t0, e, x, y),
        e < t1.edges.len(),
        t1.edges[e] == t0.edges[e],
        t0.nodes.len() <= t1.nodes.len(),
        forall|i: int| 0 <= i < t0.nodes.len() ==> t1.nodes[i] == #[trigger] t0.nodes[i],
    ensures
        dual_between(t1, e, x, y),
{
    assert(t1.nodes[t0.edges[e].source as int] == t0.nodes[t0.edges[e].source as int]);
    assert(t1.nodes[t0.edges[e].target as int] == t0.nodes[t0.edges[e].target as int]);
}

/// The dual-graph invariant survives a per-edge repair: a physical
/// update that keeps every edge's identifier and endpoints, paired
/// with one topological repair.
#[verifier::rlimit(80)]
proof fn lemma_net_repair_preserves(
    p0: PhysModel,
    p1: PhysModel,
    t0: TopoModel,
    t1: TopoModel,
    node1: NodeId,
    node2: NodeId,
)
    requires
        net_wf(p0, t0),
        phys_wf(p1),
        p1.nodes == p0.nodes,
        p1.edges.len() == p0.edges.len(),
        forall|j: int|
            0 <= j < p0.edges.len() ==> {
                &&& (#[trigger] p1.edges[j]).id == p0.edges[j].id
                &&& p1.edges[j].source == p0.edges[j].source
                &&& p1.edges[j].target == p0.edges[j].target
            },
        t1 == spec_repair_edge(t0, node1, node2),
    ensures
        net_wf(p1, t1),
{
    lemma_repair_edge_wf(t0, node1, node2);
    assert forall|k: int|
        0 <= k < p1.nodes.len() implies node_id_at(t1, 2 * k) == (#[trigger] p1.nodes[k]).id by {
        assert(p1.nodes[k] == p0.nodes[k]);
        assert(node_id_at(t0, 2 * k) == p0.nodes[k].id);
        assert(t1.nodes == t0.nodes);
    }
    assert forall|j: int| 0 <= j < p1.edges.len() implies {
        &&& t1.edges[2 * j].edge_id == (#[trigger] p1.edges[j]).id
        &&& dual_between(t1, 2 * j, p1.edges[j].source, p1.edges[j].target)
    } by {
        assert(t1.edges[2 * j].edge_id == t0.edges[2 * j].edge_id);
        assert(t0.edges[2 * j].edge_id == p0.edges[j].id);
        assert(dual_between(t0, 2 * j, p0.edges[j].source, p0.edges[j].target));
        assert(dual_between(t1, 2 * j, p0.edges[j].source, p0.edges[j].target));
    }
}


/// The physical layer after the network-wide repair has processed its
/// first `n` edges, in insertion order: for each edge in turn, the
/// path of the first physical edge between its endpoints is reordered
/// to start at the end nearer to the edge's source.
pub open spec fn spec_repair_all_phys(p0: PhysModel, n: int) -> PhysModel
    decreases n,
{
    if n <= 0 {
        p0
    } else {
        let p = spec_repair_all_phys(p0, n - 1);
        let a = p0.edges[n - 1].source;
        let b = p0.edges[n - 1].target;
        let e = phys_first_edge_between(p, a, b);
        PhysModel { nodes: p.nodes, edges: p.edges.update(e, phys_repaired_edge(p, a, e)) }
    }
}

/// The topological layer after the network-wide repair has processed
/// the first `n` physical edges, in insertion order: the dual edge
/// between each edge's endpoints is repaired in turn.
pub open spec fn spec_repair_all_topo(p0: PhysModel, t0: TopoModel, n: int) -> TopoModel
    decreases n,
{
    if n <= 0 {
        t0
    } else {
        spec_repair_edge(
            spec_repair_all_topo(p0, t0, n - 1),
            p0.edges[n - 1].source,
            p0.edges[n - 1].target,
        )
    }
}

/// `TransitNetwork` represents a transit network as one physical graph
/// and one topological graph over shared node and edge identifier
/// namespaces.  The physical graph owns the full geometry; the
/// topological graph owns only identifiers and directional structure.
pub struct TransitNetwork {
    /// The physical graph representing the transit network.
    pub physical_graph: PhysicalGraph,
    /// The topological graph representing the transit network.
    pub topology_graph: TopologyGraph,
}

impl TransitNetwork {
    /// The dual-graph invariant, relating the two layers.
    pub open spec fn wf(&self) -> bool {
        net_wf(self.physical_graph@, self.topology_graph@)
    }

    /// Constructs a new `TransitNetwork` with an empty `PhysicalGraph`
    /// and `TopologyGraph`.
    pub fn new() -> (r: Self)
        ensures
            r.wf(),
            r.physical_graph@.nodes.len() == 0,
            r.physical_graph@.edges.len() == 0,
            r.topology_graph@.nodes.len() == 0,
            r.topology_graph@.edges.len() == 0,
    {
        TransitNetwork { physical_graph: PhysicalGraph::new(), topology_graph: TopologyGraph::new() }
    }
}

impl Default for TransitNetwork {
    /// A new, empty `TransitNetwork`.
    fn default() -> (r: Self)
        ensures
            r.wf(),
            r.physical_graph@.nodes.len() == 0,
            r.physical_graph@.edges.len() == 0,
            r.topology_graph@.nodes.len() == 0,
            r.topology_graph@.edges.len() == 0,
    {
        TransitNetwork::new()
    }
}

/// Trait providing methods for modifying a transit network: adding
/// nodes and edges, with or without accessibility constraints.
pub trait TransitNetworkModifier {
    /// The invariant that every modification keeps.
    spec fn modifier_inv(&self) -> bool;

    /// Adds a `TransitNode` to the network and returns its identifier.
    fn add_node(&mut self, node: TransitNode) -> (r: Result<NodeId, NetworkError>)
        requires
            old(self).modifier_inv(),
        ensures
            final(self).modifier_inv(),
    ;

    /// Adds a `TransitEdge` to the network.
    fn add_edge(&mut self, edge: TransitEdge) -> (r: Result<(), NetworkError>)
        requires
            old(self).modifier_inv(),
        ensures
            final(self).modifier_inv(),
    ;

    /// Adds a `TransitEdge` to the network with a given accessibility.
    fn add_edge_with_accessibility(&mut self, edge: TransitEdge, accessibility: Accessability) -> (r:
        Result<(), NetworkError>)
        requires
            old(self).modifier_inv(),
        ensures
            final(self).modifier_inv(),
    ;
}

impl TransitNetworkModifier for TransitNetwork {
    /// The dual-graph invariant.
    open spec fn modifier_inv(&self) -> bool {
        self.wf()
    }

    /// Adds the node to the physical graph and its dual pair of slots
    /// to the topological graph.  A node identifier that is already
    /// present is rejected with `DuplicateNode`, and exactly then.
    #[verifier::rlimit(80)]
    fn add_node(&mut self, node: TransitNode) -> (r: Result<NodeId, NetworkError>)
        ensures
            match r {
                Ok(id) => {
                    &&& id == node.id
                    &&& !phys_has_node(old(self).physical_graph@, node.id)
                    &&& final(self).physical_graph@.nodes == old(self).physical_graph@.nodes.push(
                        node,
                    )
                    &&& final(self).physical_graph@.edges == old(self).physical_graph@.edges
                    &&& final(self).topology_graph@.nodes.len() == old(
                        self,
                    ).topology_graph@.nodes.len() + 2
                    &&& final(self).topology_graph@.edges == old(self).topology_graph@.edges
                },
                Err(e) => {
                    &&& e == NetworkError::DuplicateNode
                    &&& phys_has_node(old(self).physical_graph@, node.id)
                    &&& final(self).physical_graph@ == old(self).physical_graph@
                    &&& final(self).topology_graph@ == old(self).topology_graph@
                },
            },
    {
        let ghost p0 = self.physical_graph@;
        let ghost t0 = self.topology_graph@;
        match self.physical_graph.add_transit_node(node) {
            Err(e) => Err(e),
            Ok(_) => {
                proof {
                    lemma_net_has_node_iff(p0, t0, node.id);
                }
                let added = self.topology_graph.add_node(node.id);
                proof {
                    assert(added is Ok);
                }
                let ghost p1 = self.physical_graph@;
                let ghost t1 = self.topology_graph@;
                proof {
                    assert(t1.nodes.len() == 2 * p1.nodes.len());
                    assert forall|k: int|
                        0 <= k < p1.nodes.len() implies node_id_at(t1, 2 * k) == (
                    #[trigger] p1.nodes[k]).id by {
                        if k < p0.nodes.len() {
                            assert(p1.nodes[k] == p0.nodes[k]);
                            assert(t1.nodes[2 * k] == t0.nodes[2 * k]);
                        } else {
                            assert(k == p0.nodes.len());
                            assert(2 * k == t0.nodes.len());
                        }
                    }
                    assert forall|j: int| 0 <= j < p1.edges.len() implies {
                        &&& t1.edges[2 * j].edge_id == (#[trigger] p1.edges[j]).id
                        &&& dual_between(t1, 2 * j, p1.edges[j].source, p1.edges[j].target)
                    } by {
                        assert(p1.edges[j] == p0.edges[j]);
                        assert(t1.edges[2 * j] == t0.edges[2 * j]);
                        lemma_dual_between_stable(
                            t0,
                            t1,
                            2 * j,
                            p0.edges[j].source,
                            p0.edges[j].target,
                        );
                    }
                }
                Ok(node.id)
            },
        }
    }

    /// Adds the edge to the physical graph and a dual edge, wired by
    /// the default slot policy, to the topological graph.  The edge is
    /// rejected with `UnknownNode` when either endpoint identifier is
    /// absent, and with `EmptyPath` when both are present but the path
    /// carries no coordinates; it is accepted exactly otherwise.
    #[verifier::rlimit(80)]
    fn add_edge(&mut self, edge: TransitEdge) -> (r: Result<(), NetworkError>)
        ensures
            match r {
                Ok(_) => {
                    &&& phys_has_node(old(self).physical_graph@, edge.source)
                    &&& phys_has_node(old(self).physical_graph@, edge.target)
                    &&& edge.path@.len() >= 1
                    &&& final(self).physical_graph@.nodes == old(self).physical_graph@.nodes
                    &&& final(self).physical_graph@.edges == old(self).physical_graph@.edges.push(
                        edge@,
                    )
                    &&& final(self).topology_graph@.nodes == old(self).topology_graph@.nodes
                    &&& final(self).topology_graph@.edges == old(self).topology_graph@.edges
                        .push(
                        TopoEdge {
                            id: old(self).topology_graph@.edges.len() as usize,
                            from: edge.source,
                            to: edge.target,
                            edge_id: edge.id,
                            source: spec_default_slot(old(self).topology_graph@, edge.source)
                                as usize,
                            target: spec_default_slot(old(self).topology_graph@, edge.target)
                                as usize,
                        },
                    )
                        .push(
                        TopoEdge {
                            id: (old(self).topology_graph@.edges.len() + 1) as usize,
                            from: edge.target,
                            to: edge.source,
                            edge_id: edge.id,
                            source: mate(spec_default_slot(old(self).topology_graph@, edge.target))
                                as usize,
                            target: mate(spec_default_slot(old(self).topology_graph@, edge.source))
                                as usize,
                        },
                    )
                },
                Err(e) => {
                    &&& final(self).physical_graph@ == old(self).physical_graph@
                    &&& final(self).topology_graph@ == old(self).topology_graph@
                    &&& (e == NetworkError::UnknownNode || e == NetworkError::EmptyPath)
                    &&& (e == NetworkError::UnknownNode <==> (!phys_has_node(
                        old(self).physical_graph@,
                        edge.source,
                    ) || !phys_has_node(old(self).physical_graph@, edge.target)))
                    &&& (e == NetworkError::EmptyPath <==> (phys_has_node(
                        old(self).physical_graph@,
                        edge.source,
                    ) && phys_has_node(old(self).physical_graph@, edge.target) && edge.path@.len()
                        == 0))
                },
            },
    {
        let ghost p0 = self.physical_graph@;
        let ghost t0 = self.topology_graph@;
        let edge_id = edge.id;
        let source = edge.source;
        let target = edge.target;
        match self.physical_graph.add_transit_edge(edge) {
            Err(e) => Err(e),
            Ok(_) => {
                proof {
                    lemma_net_has_node_iff(p0, t0, source);
                    lemma_net_has_node_iff(p0, t0, target);
                }
                let added = self.topology_graph.add_edge(edge_id, source, target);
                proof {
                    assert(added is Ok);
                }
                let ghost p1 = self.physical_graph@;
                let ghost t1 = self.topology_graph@;
                proof {
                    crate::topology::lemma_default_slot(t0, source);
                    crate::topology::lemma_default_slot(t0, target);
                    assert forall|j: int| 0 <= j < p1.edges.len() implies {
                        &&& t1.edges[2 * j].edge_id == (#[trigger] p1.edges[j]).id
                        &&& dual_between(t1, 2 * j, p1.edges[j].source, p1.edges[j].target)
                    } by {
                        if j < p0.edges.len() {
                            assert(p1.edges[j] == p0.edges[j]);
                            assert(t1.edges[2 * j] == t0.edges[2 * j]);
                            lemma_dual_between_stable(
                                t0,
                                t1,
                                2 * j,
                                p0.edges[j].source,
                                p0.edges[j].target,
                            );
                        } else {
                            assert(j == p0.edges.len());
                            assert(2 * j == t0.edges.len());
                            assert(t1.edges[2 * j].source as int == spec_default_slot(t0, source));
                            assert(t1.nodes[t1.edges[2 * j].source as int] == t0.nodes[t1.edges[2
                                * j].source as int]);
                            assert(t1.nodes[t1.edges[2 * j].target as int] == t0.nodes[t1.edges[2
                                * j].target as int]);
                            assert(dual_between(t1, 2 * j, source, target));
                        }
                    }
                }
                Ok(())
            },
        }
    }

    /// Adds the edge to the physical graph and a dual edge, wired by
    /// the accessibility constraint, to the topological graph.  The
    /// edge is rejected with `UnknownNode` when either endpoint
    /// identifier is absent, with `EmptyPath` when the path carries no
    /// coordinates, and with `NoSlotAvailable` when no topological slot
    /// combination satisfies the constraint; it is accepted exactly
    /// otherwise.
    #[verifier::rlimit(80)]
    fn add_edge_with_accessibility(&mut self, edge: TransitEdge, accessibility: Accessability) -> (r:
        Result<(), NetworkError>)
        ensures
            ({
                let p0 = old(self).physical_graph@;
                let t0 = old(self).topology_graph@;
                let d0 = if accessibility.is_reachable_variant() {
                    Direction::Incoming
                } else {
                    Direction::Outgoing
                };
                let u1 = spec_find_slot(t0, edge.source, accessibility.spec_nodes(), d0);
                let v1 = spec_find_slot(
                    t0,
                    edge.target,
                    accessibility.spec_nodes(),
                    d0.spec_opposite(),
                );
                match r {
                    Ok(_) => {
                        &&& phys_has_node(p0, edge.source)
                        &&& phys_has_node(p0, edge.target)
                        &&& edge.path@.len() >= 1
                        &&& u1 is Some
                        &&& v1 is Some
                        &&& final(self).physical_graph@.nodes == p0.nodes
                        &&& final(self).physical_graph@.edges == p0.edges.push(edge@)
                        &&& final(self).topology_graph@.nodes == t0.nodes
                        &&& final(self).topology_graph@.edges == t0.edges
                            .push(
                            TopoEdge {
                                id: t0.edges.len() as usize,
                                from: edge.source,
                                to: edge.target,
                                edge_id: edge.id,
                                source: u1.unwrap() as usize,
                                target: v1.unwrap() as usize,
                            },
                        )
                            .push(
                            TopoEdge {
                                id: (t0.edges.len() + 1) as usize,
                                from: edge.target,
                                to: edge.source,
                                edge_id: edge.id,
                                source: mate(v1.unwrap()) as usize,
                                target: mate(u1.unwrap()) as usize,
                            },
                        )
                    },
                    Err(e) => {
                        &&& final(self).physical_graph@ == p0
                        &&& final(self).topology_graph@ == t0
                        &&& (e == NetworkError::UnknownNode || e == NetworkError::EmptyPath || e
                            == NetworkError::NoSlotAvailable)
                        &&& (e == NetworkError::UnknownNode <==> (!phys_has_node(p0, edge.source)
                            || !phys_has_node(p0, edge.target)))
                        &&& (e == NetworkError::EmptyPath <==> (phys_has_node(p0, edge.source)
                            && phys_has_node(p0, edge.target) && edge.path@.len() == 0))
                        &&& (e == NetworkError::NoSlotAvailable <==> (phys_has_node(p0, edge.source)
                            && phys_has_node(p0, edge.target) && edge.path@.len() >= 1 && (u1
                            is None || v1 is None)))
                    },
                }
            }),
    {
        let ghost p0 = self.physical_graph@;
        let ghost t0 = self.topology_graph@;
        if self.physical_graph.id_to_index(edge.source).is_none()
            || self.physical_graph.id_to_index(edge.target).is_none() {
            return Err(NetworkError::UnknownNode);
        }
        if edge.path.len() == 0 {
            return Err(NetworkError::EmptyPath);
        }
        let edge_id = edge.id;
        let source = edge.source;
        let target = edge.target;
        match self.topology_graph.add_edge_with_accessibility(
            edge_id,
            source,
            target,
            accessibility,
        ) {
            Err(e) => {
                proof {
                    assert(phys_has_node(p0, source));
                }
                Err(e)
            },
            Ok(_) => {
                let added = self.physical_graph.add_transit_edge(edge);
                proof {
                    assert(added is Ok);
                }
                let ghost p1 = self.physical_graph@;
                let ghost t1 = self.topology_graph@;
                proof {
                    let d0 = if accessibility.is_reachable_variant() {
                        Direction::Incoming
                    } else {
                        Direction::Outgoing
                    };
                    crate::topology::lemma_find_slot(
                        t0,
                        source,
                        accessibility.spec_nodes(),
                        d0,
                    );
                    crate::topology::lemma_find_slot(
                        t0,
                        target,
                        accessibility.spec_nodes(),
                        d0.spec_opposite(),
                    );
                    assert forall|j: int| 0 <= j < p1.edges.len() implies {
                        &&& t1.edges[2 * j].edge_id == (#[trigger] p1.edges[j]).id
                        &&& dual_between(t1, 2 * j, p1.edges[j].source, p1.edges[j].target)
                    } by {
                        if j < p0.edges.len() {
                            assert(p1.edges[j] == p0.edges[j]);
                            assert(t1.edges[2 * j] == t0.edges[2 * j]);
                            lemma_dual_between_stable(
                                t0,
                                t1,
                                2 * j,
                                p0.edges[j].source,
                                p0.edges[j].target,
                            );
                        } else {
                            assert(j == p0.edges.len());
                            assert(2 * j == t0.edges.len());
                            assert(t1.nodes[t1.edges[2 * j].source as int] == t0.nodes[t1.edges[2
                                * j].source as int]);
                            assert(t1.nodes[t1.edges[2 * j].target as int] == t0.nodes[t1.edges[2
                                * j].target as int]);
                            assert(dual_between(t1, 2 * j, source, target));
                        }
                    }
                }
                Ok(())
            },
        }
    }
}

/// A trait for repairing transit networks: ensuring that the edges of
/// the network run in consistent directions, both geometrically in the
/// physical layer and structurally in the topological layer.
pub trait TransitNetworkRepairer {
    /// The invariant that every repair keeps.
    spec fn repairer_inv(&self) -> bool;

    /// Whether the dual repair of the edge between `node1` and `node2`
    /// can run: both nodes and a physical edge between them exist.
    spec fn repair_edge_ready(&self, node1: NodeId, node2: NodeId) -> bool;

    /// Repairs the edge between two nodes in the network, in both
    /// layers: the physical edge's path is reordered to start at the
    /// end nearer to `node1`, and the topological dual edge's direction
    /// is corrected when it disagrees with its neighbours.
    fn repair_edge(&mut self, node1: NodeId, node2: NodeId)
        requires
            old(self).repairer_inv(),
            old(self).repair_edge_ready(node1, node2),
        ensures
            final(self).repairer_inv(),
    ;

    /// Repairs the entire network by repairing the edge between the
    /// endpoints of every physical edge, in insertion order.
    fn repair(&mut self)
        requires
            old(self).repairer_inv(),
        ensures
            final(self).repairer_inv(),
    ;
}

impl TransitNetworkRepairer for TransitNetwork {
    /// The dual-graph invariant.
    open spec fn repairer_inv(&self) -> bool {
        self.wf()
    }

    /// Both nodes are present and some physical edge joins them.
    open spec fn repair_edge_ready(&self, node1: NodeId, node2: NodeId) -> bool {
        &&& phys_has_node(self.physical_graph@, node1)
        &&& phys_has_node(self.physical_graph@, node2)
        &&& phys_has_edge_between(self.physical_graph@, node1, node2)
    }

    #[verifier::rlimit(80)]
    fn repair_edge(&mut self, node1: NodeId, node2: NodeId)
        ensures
            final(self).physical_graph@.nodes == old(self).physical_graph@.nodes,
            phys_is_first_edge_between(
                old(self).physical_graph@,
                node1,
                node2,
                phys_first_edge_between(old(self).physical_graph@, node1, node2),
            ),
            final(self).physical_graph@.edges == old(self).physical_graph@.edges.update(
                phys_first_edge_between(old(self).physical_graph@, node1, node2),
                phys_repaired_edge(
                    old(self).physical_graph@,
                    node1,
                    phys_first_edge_between(old(self).physical_graph@, node1, node2),
                ),
            ),
            final(self).topology_graph@ == spec_repair_edge(
                old(self).topology_graph@,
                node1,
                node2,
            ),
    {
        let ghost p0 = self.physical_graph@;
        let ghost t0 = self.topology_graph@;
        self.physical_graph.repair_edge(node1, node2);
        self.topology_graph.repair_edge(node1, node2);
        proof {
            let p1 = self.physical_graph@;
            let t1 = self.topology_graph@;
            let e = phys_first_edge_between(p0, node1, node2);
            assert forall|j: int| 0 <= j < p0.edges.len() implies {
                &&& (#[trigger] p1.edges[j]).id == p0.edges[j].id
                &&& p1.edges[j].source == p0.edges[j].source
                &&& p1.edges[j].target == p0.edges[j].target
            } by {
                if j != e {
                    assert(p1.edges[j] == p0.edges[j]);
                }
            }
            lemma_net_repair_preserves(p0, p1, t0, t1, node1, node2);
        }
    }

    #[verifier::rlimit(80)]
    fn repair(&mut self)
        ensures
            final(self).physical_graph@ == spec_repair_all_phys(
                old(self).physical_graph@,
                old(self).physical_graph@.edges.len() as int,
            ),
            final(self).topology_graph@ == spec_repair_all_topo(
                old(self).physical_graph@,
                old(self).topology_graph@,
                old(self).physical_graph@.edges.len() as int,
            ),
            final(self).physical_graph@.nodes == old(self).physical_graph@.nodes,
            final(self).physical_graph@.edges.len() == old(self).physical_graph@.edges.len(),
            forall|j: int|
                0 <= j < old(self).physical_graph@.edges.len() ==> {
                    &&& (#[trigger] final(self).physical_graph@.edges[j]).id == old(
                        self,
                    ).physical_graph@.edges[j].id
                    &&& final(self).physical_graph@.edges[j].source == old(
                        self,
                    ).physical_graph@.edges[j].source
                    &&& final(self).physical_graph@.edges[j].target == old(
                        self,
                    ).physical_graph@.edges[j].target
                    &&& final(self).physical_graph@.edges[j].length == old(
                        self,
                    ).physical_graph@.edges[j].length
                },
            final(self).topology_graph@.nodes == old(self).topology_graph@.nodes,
            final(self).topology_graph@.edges.len() == old(self).topology_graph@.edges.len(),
    {
        let n = self.physical_graph.edge_count();
        let mut pairs: Vec<(NodeId, NodeId)> = Vec::new();
        let mut j: usize = 0;
        while j < n
            invariant
                self.wf(),
                self == old(self),
                n == self.physical_graph@.edges.len(),
                j <= n,
                pairs@.len() == j,
                forall|i: int|
                    0 <= i < j ==> #[trigger] pairs@[i] == (
                    self.physical_graph@.edges[i].source,
                    self.physical_graph@.edges[i].target,
                ),
            decreases n - j,
        {
            let edge = self.physical_graph.transit_edge_at(j).unwrap();
            let pair = (edge.source, edge.target);
            pairs.push(pair);
            j += 1;
        }
        let ghost p0 = self.physical_graph@;
        let ghost t0 = self.topology_graph@;
        let mut i: usize = 0;
        while i < n
            invariant
                self.wf(),
                n == pairs@.len(),
                i <= n,
                self.physical_graph@.nodes == p0.nodes,
                self.physical_graph@.edges.len() == p0.edges.len(),
                n == p0.edges.len(),
                forall|j: int|
                    0 <= j < n ==> {
                        &&& (#[trigger] self.physical_graph@.edges[j]).id == p0.edges[j].id
                        &&& self.physical_graph@.edges[j].source == p0.edges[j].source
                        &&& self.physical_graph@.edges[j].target == p0.edges[j].target
                        &&& self.physical_graph@.edges[j].length == p0.edges[j].length
                    },
                forall|j: int|
                    0 <= j < n ==> #[trigger] pairs@[j] == (p0.edges[j].source, p0.edges[j].target),
                self.topology_graph@.nodes == t0.nodes,
                self.topology_graph@.edges.len() == t0.edges.len(),
                self.physical_graph@ == spec_repair_all_phys(p0, i as int),
                self.topology_graph@ == spec_repair_all_topo(p0, t0, i as int),
            decreases n - i,
        {
            let (a, b) = pairs[i];
            proof {
                assert(self.physical_graph@.edges[i as int].source == a);
                assert(self.physical_graph@.edges[i as int].target == b);
                assert(phys_has_node(self.physical_graph@, a));
                assert(phys_has_node(self.physical_graph@, b));
                assert(phys_edge_between(self.physical_graph@, i as int, a, b));
                assert(phys_has_edge_between(self.physical_graph@, a, b));
            }
            let ghost pc = self.physical_graph@;
            let ghost tc = self.topology_graph@;
            self.repair_edge(a, b);
            proof {
                let e = phys_first_edge_between(pc, a, b);
                assert forall|j: int| 0 <= j < n implies {
                    &&& (#[trigger] self.physical_graph@.edges[j]).id == p0.edges[j].id
                    &&& self.physical_graph@.edges[j].source == p0.edges[j].source
                    &&& self.physical_graph@.edges[j].target == p0.edges[j].target
                    &&& self.physical_graph@.edges[j].length == p0.edges[j].length
                } by {
                    if j != e {
                        assert(self.physical_graph@.edges[j] == pc.edges[j]);
                    }
                }
                assert(p0.edges[i as int].source == a && p0.edges[i as int].target == b);
                assert(self.physical_graph@ =~= spec_repair_all_phys(p0, i as int + 1));
                assert(self.topology_graph@ == spec_repair_all_topo(p0, t0, i as int + 1));
            }
            i += 1;
        }
    }
}

/// **The dual-node and dual-edge counts.**  Under the dual-graph
/// invariant, which every constructor, modifier and repair of
/// `TransitNetwork` maintains, the topological graph holds exactly two
/// nodes for every physical node and exactly two edges for every
/// physical edge.
pub proof fn lemma_dual_counts(p: PhysModel, t: TopoModel)
    requires
        net_wf(p, t),
    ensures
        t.nodes.len() == 2 * p.nodes.len(),
        t.edges.len() == 2 * p.edges.len(),
{
}

} // verus!

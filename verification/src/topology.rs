//! The directed topological layer of the transit network.
//!
//! Every physical node is represented by *two* topological nodes — a
//! dual pair of slots — and every physical edge by two directed
//! topological edges, a forward edge and a mirror edge running the
//! opposite way between the other slots.  The pairing is positional:
//! the slots of the `k`-th node added are the arena indices `2k` and
//! `2k + 1`, and the two directed edges of the `j`-th dual edge are the
//! arena indices `2j` and `2j + 1`.

use crate::accessability::Accessability;
use crate::base::{Direction, NetworkError, NodeId};
use crate::edge::EdgeId;
use vstd::prelude::*;

verus! {

/// Represents a node in the `TopologyGraph`.
///
/// Each topological node is one slot of the dual pair that stands for a
/// physical node.
#[derive(Clone, Copy, Debug, PartialEq, Eq, Structural)]
pub struct TopoNode {
    /// The arena index of this topological node.
    pub id: usize,
    /// The identifier of the physical node this slot belongs to.
    pub node_id: NodeId,
}

/// Represents an edge in the `TopologyGraph`.
///
/// The `source` and `target` fields are the arena indices of the slots
/// the edge currently runs between; they are what direction repair
/// rewrites.  The `from` and `to` fields record the node identifiers
/// the edge was inserted with and are kept as payload.
#[derive(Clone, Copy, Debug, PartialEq, Eq, Structural)]
pub struct TopoEdge {
    /// The arena index of this topological edge.
    pub id: usize,
    /// The identifier of the node the edge was inserted from.
    pub from: NodeId,
    /// The identifier of the node the edge was inserted towards.
    pub to: NodeId,
    /// The identifier of the physical edge this edge stands for.
    pub edge_id: EdgeId,
    /// The arena index of the slot the edge currently leaves.
    pub source: usize,
    /// The arena index of the slot the edge currently enters.
    pub target: usize,
}

/// The mathematical model of a `TopologyGraph`: the slot arena and the
/// directed-edge arena as sequences.
#[verifier::ext_equal]
pub struct TopoModel {
    /// The topological nodes, two per physical node, in insertion order.
    pub nodes: Seq<TopoNode>,
    /// The directed edges, two per physical edge, in insertion order.
    pub edges: Seq<TopoEdge>,
}

/// The other slot of the dual pair that `i` belongs to.
pub open spec fn mate(i: int) -> int {
    if i % 2 == 0 {
        i + 1
    } else {
        i - 1
    }
}

/// The physical-node identifier of slot `i`.
pub open spec fn node_id_at(m: TopoModel, i: int) -> NodeId {
    m.nodes[i].node_id
}

/// Whether `id` has a dual pair in `m`: some even slot carries it.
pub open spec fn topo_has_pair(m: TopoModel, id: NodeId) -> bool {
    exists|i: int|
        0 <= i < m.nodes.len() && i % 2 == 0 && (#[trigger] m.nodes[i]).node_id == id
}

/// The even slot index of the dual pair of `id`.
pub open spec fn topo_pair_first(m: TopoModel, id: NodeId) -> int {
    choose|i: int|
        0 <= i < m.nodes.len() && i % 2 == 0 && (#[trigger] m.nodes[i]).node_id == id
}

/// Whether slot `i` has at least one incoming edge.
pub open spec fn topo_has_incoming(m: TopoModel, i: int) -> bool {
    exists|e: int| 0 <= e < m.edges.len() && (#[trigger] m.edges[e]).target == i
}

/// Whether some edge of `m` runs from slot `u` to slot `v`.
pub open spec fn topo_has_edge(m: TopoModel, u: int, v: int) -> bool {
    exists|e: int|
        0 <= e < m.edges.len() && (#[trigger] m.edges[e]).source == u && m.edges[e].target == v
}

/// Whether `e` is the least-index edge from slot `u` to slot `v`.
pub open spec fn topo_is_first_edge(m: TopoModel, u: int, v: int, e: int) -> bool {
    &&& 0 <= e < m.edges.len()
    &&& m.edges[e].source == u
    &&& m.edges[e].target == v
    &&& forall|f: int|
        0 <= f < e ==> !((#[trigger] m.edges[f]).source == u && m.edges[f].target == v)
}

/// The mirror relation between the two directed edges of one dual edge:
/// they carry the same physical edge identifier and run between the
/// dual pairs of the same two node identifiers, in opposite directions.
pub open spec fn mirror_ok(m: TopoModel, e: int) -> bool {
    &&& node_id_at(m, m.edges[e].source as int) == node_id_at(m, m.edges[e + 1].target as int)
    &&& node_id_at(m, m.edges[e].target as int) == node_id_at(m, m.edges[e + 1].source as int)
    &&& m.edges[e].edge_id == m.edges[e + 1].edge_id
}

/// Well-formedness of the topological layer.
///
/// Slots come in dual pairs that share one node identifier; distinct
/// pairs carry distinct node identifiers; every stored index equals its
/// arena position; edges come in mirror pairs whose endpoints are valid
/// slots.
pub open spec fn topo_wf(m: TopoModel) -> bool {
    &&& m.nodes.len() % 2 == 0
    &&& forall|i: int| 0 <= i < m.nodes.len() ==> (#[trigger] m.nodes[i]).id == i
    &&& forall|i: int|
        0 <= i < m.nodes.len() ==> node_id_at(m, mate(i)) == (#[trigger] m.nodes[i]).node_id
    &&& forall|i: int, j: int|
        0 <= i < m.nodes.len() && 0 <= j < m.nodes.len()
            && (#[trigger] m.nodes[i]).node_id == (#[trigger] m.nodes[j]).node_id ==> i / 2 == j / 2
    &&& m.edges.len() % 2 == 0
    &&& forall|e: int|
        0 <= e < m.edges.len() ==> {
            &&& (#[trigger] m.edges[e]).id == e
            &&& m.edges[e].source < m.nodes.len()
            &&& m.edges[e].target < m.nodes.len()
        }
    &&& forall|e: int| 0 <= e < m.edges.len() && e % 2 == 0 ==> #[trigger] mirror_ok(m, e)
}

/// In a well-formed model, an even slot carrying `id` is *the* pair
/// index of `id`.
pub proof fn lemma_pair_unique(m: TopoModel, id: NodeId, i: int)
    requires
        topo_wf(m),
        0 <= i < m.nodes.len(),
        i % 2 == 0,
        m.nodes[i].node_id == id,
    ensures
        topo_has_pair(m, id),
        topo_pair_first(m, id) == i,
{
    assert(topo_has_pair(m, id));
    let w = topo_pair_first(m, id);
    assert(0 <= w < m.nodes.len() && w % 2 == 0 && m.nodes[w].node_id == id);
    assert(w / 2 == i / 2);
}

/// In a well-formed model, any slot carrying `id` belongs to the pair
/// of `id`, whose even member is `topo_pair_first`.
pub proof fn lemma_slot_of_id(m: TopoModel, i: int)
    requires
        topo_wf(m),
        0 <= i < m.nodes.len(),
    ensures
        topo_has_pair(m, m.nodes[i].node_id),
        topo_pair_first(m, m.nodes[i].node_id) == if i % 2 == 0 { i } else { mate(i) },
        0 <= mate(i) < m.nodes.len(),
        m.nodes[mate(i)].node_id == m.nodes[i].node_id,
{
    assert(node_id_at(m, mate(i)) == m.nodes[i].node_id);
    if i % 2 == 0 {
        assert(mate(i) == i + 1);
        assert(i + 1 < m.nodes.len()) by {
            assert(m.nodes[i].id == i);
            if i + 1 >= m.nodes.len() {
                assert(m.nodes.len() % 2 == 0);
            }
        }
        lemma_pair_unique(m, m.nodes[i].node_id, i);
    } else {
        lemma_pair_unique(m, m.nodes[i].node_id, mate(i));
    }
}

/// Represents the topological graph of the transit network.
///
/// The topological graph is directed, and each physical node maps to a
/// dual pair of topological nodes.  This is what lets scenarios such as
/// rail switches, where the directionality of edges matters, be encoded
/// on top of an undirected physical layer.
pub struct TopologyGraph {
    nodes: Vec<TopoNode>,
    edges: Vec<TopoEdge>,
}

impl View for TopologyGraph {
    type V = TopoModel;

    closed spec fn view(&self) -> TopoModel {
        TopoModel { nodes: self.nodes@, edges: self.edges@ }
    }
}

impl TopologyGraph {
    /// Well-formedness of this graph.
    pub open spec fn wf(&self) -> bool {
        topo_wf(self@)
    }

    /// Creates a new instance of `TopologyGraph`.
    pub fn new() -> (r: Self)
        ensures
            r@.nodes.len() == 0 && r@.edges.len() == 0,
            r.wf(),
    {
        TopologyGraph { nodes: Vec::new(), edges: Vec::new() }
    }

    /// The number of topological nodes; twice the number of physical
    /// nodes added.
    pub fn node_count(&self) -> (r: usize)
        ensures
            r == self@.nodes.len(),
    {
        self.nodes.len()
    }

    /// The number of topological edges; twice the number of physical
    /// edges added.
    pub fn edge_count(&self) -> (r: usize)
        ensures
            r == self@.edges.len(),
    {
        self.edges.len()
    }

    /// Returns the node identifier of the slot at `index`, or `None`
    /// when no slot is stored there.
    pub fn index_to_id(&self, index: usize) -> (r: Option<NodeId>)
        ensures
            match r {
                Some(id) => index < self@.nodes.len() && id == node_id_at(self@, index as int),
                None => index >= self@.nodes.len(),
            },
    {
        if index < self.nodes.len() {
            Some(self.nodes[index].node_id)
        } else {
            None
        }
    }

    /// Returns the dual pair of slot indices of the node identified by
    /// `id`, or `None` when `id` is absent.
    #[verifier::rlimit(100)]
    pub fn id_to_index(&self, id: NodeId) -> (r: Option<(usize, usize)>)
        requires
            self.wf(),
        ensures
            match r {
                Some((i, j)) => {
                    &&& topo_has_pair(self@, id)
                    &&& i == topo_pair_first(self@, id)
                    &&& j == i + 1
                    &&& i % 2 == 0
                    &&& j < self@.nodes.len()
                    &&& node_id_at(self@, i as int) == id
                    &&& node_id_at(self@, j as int) == id
                },
                None => !topo_has_pair(self@, id),
            },
    {
        let n = self.nodes.len();
        let mut i: usize = 0;
        while i + 1 < n
            invariant
                self.wf(),
                n == self@.nodes.len(),
                i % 2 == 0,
                i <= n,
                forall|j: int|
                    0 <= j < i && j % 2 == 0 ==> (#[trigger] self@.nodes[j]).node_id != id,
            decreases n - i,
        {
            if self.nodes[i].node_id == id {
                proof {
                    lemma_pair_unique(self@, id, i as int);
                    lemma_slot_of_id(self@, i as int);
                }
                return Some((i, i + 1));
            }
            i += 2;
        }
        proof {
            if topo_has_pair(self@, id) {
                let w = choose|w: int|
                    0 <= w < self@.nodes.len() && w % 2 == 0
                        && (#[trigger] self@.nodes[w]).node_id == id;
                assert(self@.nodes[w].node_id == id);
                assert(false);
            }
        }
        None
    }

    /// Adds a node with a `NodeId` to the topological graph.  This
    /// internally adds two topological nodes — the dual pair of slots —
    /// and returns their arena indices.  A node identifier that already
    /// has a pair is rejected with `DuplicateNode`, and exactly then.
    pub fn add_node(&mut self, node_id: NodeId) -> (r: Result<(usize, usize), NetworkError>)
        requires
            old(self).wf(),
        ensures
            final(self).wf(),
            match r {
                Ok((i, j)) => {
                    &&& !topo_has_pair(old(self)@, node_id)
                    &&& i == old(self)@.nodes.len()
                    &&& j == i + 1
                    &&& final(self)@.nodes == old(self)@.nodes
                        .push(TopoNode { id: i, node_id })
                        .push(TopoNode { id: j, node_id })
                    &&& final(self)@.edges == old(self)@.edges
                    &&& topo_has_pair(final(self)@, node_id)
                    &&& topo_pair_first(final(self)@, node_id) == i
                },
                Err(e) => {
                    &&& e == NetworkError::DuplicateNode
                    &&& topo_has_pair(old(self)@, node_id)
                    &&& final(self)@ == old(self)@
                },
            },
    {
        if self.id_to_index(node_id).is_some() {
            return Err(NetworkError::DuplicateNode);
        }
        let i = self.nodes.len();
        let ghost m0 = self@;
        self.nodes.push(TopoNode { id: i, node_id });
        self.nodes.push(TopoNode { id: i + 1, node_id });
        proof {
            let m1 = final(self)@;
            assert(m1.edges =~= m0.edges);
            lemma_add_pair_keeps_wf(m0, m1, node_id);
            lemma_pair_unique(m1, node_id, i as int);
        }
        Ok((i, i + 1))
    }

    /// Returns the arena index of the other slot of the dual pair that
    /// `topo_node_id` belongs to, if `topo_node_id` is a slot at all.
    pub fn get_other_toponode(&self, topo_node_id: usize) -> (r: Option<usize>)
        ensures
            match r {
                Some(j) => {
                    &&& topo_node_id < self@.nodes.len()
                    &&& j == mate(topo_node_id as int)
                    &&& self.wf() ==> j < self@.nodes.len()
                        && node_id_at(self@, j as int) == node_id_at(self@, topo_node_id as int)
                },
                None => topo_node_id >= self@.nodes.len(),
            },
    {
        if topo_node_id < self.nodes.len() {
            proof {
                if self.wf() {
                    lemma_slot_of_id(self@, topo_node_id as int);
                }
            }
            if topo_node_id % 2 == 0 {
                Some(topo_node_id + 1)
            } else {
                Some(topo_node_id - 1)
            }
        } else {
            None
        }
    }

    /// Checks if a slot has an incoming edge in the topological graph.
    pub fn has_incoming(&self, node: usize) -> (r: bool)
        ensures
            r == topo_has_incoming(self@, node as int),
    {
        let n = self.edges.len();
        let mut e: usize = 0;
        while e < n
            invariant
                n == self@.edges.len(),
                e <= n,
                forall|f: int| 0 <= f < e ==> (#[trigger] self@.edges[f]).target != node,
            decreases n - e,
        {
            if self.edges[e].target == node {
                return true;
            }
            e += 1;
        }
        false
    }

    /// Returns the arena index of the first edge running from slot `u`
    /// to slot `v`, or `None` when there is none.
    pub fn find_edge(&self, u: usize, v: usize) -> (r: Option<usize>)
        ensures
            match r {
                Some(e) => topo_is_first_edge(self@, u as int, v as int, e as int),
                None => !topo_has_edge(self@, u as int, v as int),
            },
    {
        let n = self.edges.len();
        let mut e: usize = 0;
        while e < n
            invariant
                n == self@.edges.len(),
                e <= n,
                forall|f: int|
                    0 <= f < e ==> !((#[trigger] self@.edges[f]).source == u
                        && self@.edges[f].target == v),
            decreases n - e,
        {
            if self.edges[e].source == u && self.edges[e].target == v {
                return Some(e);
            }
            e += 1;
        }
        None
    }

    /// Returns a reference to the edge stored at `edge_index`, or
    /// `None` when no edge is stored there.
    pub fn edge_weight(&self, edge_index: usize) -> (r: Option<&TopoEdge>)
        ensures
            match r {
                Some(edge) => edge_index < self@.edges.len()
                    && *edge == self@.edges[edge_index as int],
                None => edge_index >= self@.edges.len(),
            },
    {
        if edge_index < self.edges.len() {
            Some(&self.edges[edge_index])
        } else {
            None
        }
    }

    /// Returns the pair of slot indices the edge at `edge_index`
    /// currently runs between, or `None` when no edge is stored there.
    pub fn edge_endpoints(&self, edge_index: usize) -> (r: Option<(usize, usize)>)
        ensures
            match r {
                Some((s, t)) => edge_index < self@.edges.len()
                    && s == self@.edges[edge_index as int].source
                    && t == self@.edges[edge_index as int].target,
                None => edge_index >= self@.edges.len(),
            },
    {
        if edge_index < self.edges.len() {
            Some((self.edges[edge_index].source, self.edges[edge_index].target))
        } else {
            None
        }
    }
}

/// Whether edge `f` is incident to slot `i` in direction `dir`: it
/// leaves `i` for `Outgoing` and enters `i` for `Incoming`.
pub open spec fn edge_touches_dir(m: TopoModel, f: int, i: int, dir: Direction) -> bool {
    match dir {
        Direction::Outgoing => m.edges[f].source == i,
        Direction::Incoming => m.edges[f].target == i,
    }
}

/// The slot at the far end of edge `f` as seen from the node it
/// touches in direction `dir`: the target of an outgoing edge, the
/// source of an incoming one.
pub open spec fn edge_far_end(m: TopoModel, f: int, dir: Direction) -> int {
    match dir {
        Direction::Outgoing => m.edges[f].target as int,
        Direction::Incoming => m.edges[f].source as int,
    }
}

/// Whether slot `i` has no edge in direction `dir` connecting it to a
/// neighbour whose node identifier is listed in `ns`.
pub open spec fn spec_no_edges_in_direction(
    m: TopoModel,
    i: int,
    ns: Seq<NodeId>,
    dir: Direction,
) -> bool {
    forall|f: int|
        0 <= f < m.edges.len() && #[trigger] edge_touches_dir(m, f, i, dir)
            ==> !ns.contains(node_id_at(m, edge_far_end(m, f, dir)))
}

/// The slot of the dual pair of `id` chosen for an accessibility
/// constraint: the first slot of the pair that has no edge in the
/// direction opposite to `dir` towards the node set `ns`, preferring
/// the even slot.
pub open spec fn spec_find_slot(m: TopoModel, id: NodeId, ns: Seq<NodeId>, dir: Direction) -> Option<
    int,
> {
    if !topo_has_pair(m, id) {
        None
    } else {
        let p = topo_pair_first(m, id);
        if spec_no_edges_in_direction(m, p, ns, dir.spec_opposite()) {
            Some(p)
        } else if spec_no_edges_in_direction(m, p + 1, ns, dir.spec_opposite()) {
            Some(p + 1)
        } else {
            None
        }
    }
}

/// The slot of the dual pair of `id` selected by the default insertion
/// policy: the first slot of the pair with no incoming edge, and the
/// even slot again when both slots already have one — a choice that
/// may give the new edge a wrong direction, to be corrected by a later
/// repair.
pub open spec fn spec_default_slot(m: TopoModel, id: NodeId) -> int {
    let p = topo_pair_first(m, id);
    if !topo_has_incoming(m, p) {
        p
    } else if !topo_has_incoming(m, p + 1) {
        p + 1
    } else {
        p
    }
}

/// Whether edge `e` runs between the dual pairs of `a` and `b`, in
/// either direction.
pub open spec fn dual_between(m: TopoModel, e: int, a: NodeId, b: NodeId) -> bool {
    &&& 0 <= e < m.edges.len()
    &&& m.edges[e].source < m.nodes.len()
    &&& m.edges[e].target < m.nodes.len()
    &&& {
        ||| (node_id_at(m, m.edges[e].source as int) == a
            && node_id_at(m, m.edges[e].target as int) == b)
        ||| (node_id_at(m, m.edges[e].source as int) == b
            && node_id_at(m, m.edges[e].target as int) == a)
    }
}

/// The number of edges among the first `n` that run between the dual
/// pairs of `a` and `b`.
pub open spec fn count_dual_between(m: TopoModel, a: NodeId, b: NodeId, n: int) -> int
    decreases n,
{
    if n <= 0 {
        0
    } else {
        count_dual_between(m, a, b, n - 1) + if dual_between(m, n - 1, a, b) {
            1int
        } else {
            0int
        }
    }
}

/// Whether the edge at `e` agrees with its neighbours' direction: its
/// source slot has some other incoming edge arriving from a slot other
/// than the edge's target, and its target slot has some other outgoing
/// edge leaving for a slot other than the edge's source.
pub open spec fn spec_dir_consent(m: TopoModel, e: int) -> bool {
    &&& exists|f: int|
        0 <= f < m.edges.len() && (#[trigger] m.edges[f]).target == m.edges[e].source
            && m.edges[f].source != m.edges[e].target
    &&& exists|g: int|
        0 <= g < m.edges.len() && (#[trigger] m.edges[g]).source == m.edges[e].target
            && m.edges[g].target != m.edges[e].source
}

/// Whether `x` occurs in `ids`.
fn contains_id(ids: &Vec<NodeId>, x: NodeId) -> (r: bool)
    ensures
        r == ids@.contains(x),
{
    let n = ids.len();
    let mut i: usize = 0;
    while i < n
        invariant
            n == ids@.len(),
            i <= n,
            forall|j: int| 0 <= j < i ==> ids@[j] != x,
        decreases n - i,
    {
        if ids[i] == x {
            return true;
        }
        i += 1;
    }
    false
}

impl TopologyGraph {
    /// Checks that there is no edge in the given direction at
    /// `topo_node_id` connecting it to any of the nodes in
    /// `neighbors`.
    pub fn no_edges_in_direction(
        &self,
        topo_node_id: usize,
        neighbors: &Vec<NodeId>,
        dir: Direction,
    ) -> (r: bool)
        requires
            self.wf(),
        ensures
            r == spec_no_edges_in_direction(self@, topo_node_id as int, neighbors@, dir),
    {
        let n = self.edges.len();
        let mut f: usize = 0;
        while f < n
            invariant
                self.wf(),
                n == self@.edges.len(),
                f <= n,
                forall|g: int|
                    0 <= g < f && #[trigger] edge_touches_dir(self@, g, topo_node_id as int, dir)
                        ==> !neighbors@.contains(node_id_at(self@, edge_far_end(self@, g, dir))),
            decreases n - f,
        {
            let touches = match dir {
                Direction::Outgoing => self.edges[f].source == topo_node_id,
                Direction::Incoming => self.edges[f].target == topo_node_id,
            };
            if touches {
                let far = match dir {
                    Direction::Outgoing => self.edges[f].target,
                    Direction::Incoming => self.edges[f].source,
                };
                if contains_id(neighbors, self.nodes[far].node_id) {
                    proof {
                        assert(edge_touches_dir(self@, f as int, topo_node_id as int, dir));
                    }
                    return false;
                }
            }
            f += 1;
        }
        true
    }

    /// Returns the slot of the dual pair of `node_id` that has no edge
    /// in the direction opposite to `dir` towards nodes in `neighbors`,
    /// preferring the even slot, or `None` when `node_id` is absent or
    /// neither slot qualifies.
    pub fn find_node_index_with_edges(
        &self,
        node_id: NodeId,
        neighbors: &Vec<NodeId>,
        dir: Direction,
    ) -> (r: Option<usize>)
        requires
            self.wf(),
        ensures
            match r {
                Some(i) => spec_find_slot(self@, node_id, neighbors@, dir) == Some(i as int),
                None => spec_find_slot(self@, node_id, neighbors@, dir) is None,
            },
    {
        let (p1, p2) = match self.id_to_index(node_id) {
            Some(pair) => pair,
            None => {
                return None;
            },
        };
        let opp = dir.opposite();
        if self.no_edges_in_direction(p1, neighbors, opp) {
            return Some(p1);
        }
        if self.no_edges_in_direction(p2, neighbors, opp) {
            return Some(p2);
        }
        None
    }

    /// Adds a dual edge to the topological graph using the default slot
    /// policy: at each endpoint the first slot of the dual pair with no
    /// incoming edge is used, and the first slot again when both
    /// already have one — which may give the edge a wrong direction, to
    /// be corrected by a later repair.  A forward edge is created
    /// between the selected slots and a mirror edge between the
    /// respective other slots, in the opposite direction.  An absent
    /// endpoint identifier is rejected with `UnknownNode`, and exactly
    /// then.
    #[verifier::rlimit(80)]
    pub fn add_edge(&mut self, edge_id: EdgeId, from_node_id: NodeId, to_node_id: NodeId) -> (r:
        Result<(usize, usize), NetworkError>)
        requires
            old(self).wf(),
        ensures
            final(self).wf(),
            match r {
                Ok((i, j)) => {
                    &&& topo_has_pair(old(self)@, from_node_id)
                    &&& topo_has_pair(old(self)@, to_node_id)
                    &&& i == old(self)@.edges.len()
                    &&& j == i + 1
                    &&& final(self)@.nodes == old(self)@.nodes
                    &&& final(self)@.edges == old(self)@.edges
                        .push(TopoEdge {
                            id: i,
                            from: from_node_id,
                            to: to_node_id,
                            edge_id,
                            source: spec_default_slot(old(self)@, from_node_id) as usize,
                            target: spec_default_slot(old(self)@, to_node_id) as usize,
                        })
                        .push(TopoEdge {
                            id: j,
                            from: to_node_id,
                            to: from_node_id,
                            edge_id,
                            source: mate(spec_default_slot(old(self)@, to_node_id)) as usize,
                            target: mate(spec_default_slot(old(self)@, from_node_id)) as usize,
                        })
                },
                Err(e) => {
                    &&& e == NetworkError::UnknownNode
                    &&& !(topo_has_pair(old(self)@, from_node_id) && topo_has_pair(
                        old(self)@,
                        to_node_id,
                    ))
                    &&& final(self)@ == old(self)@
                },
            },
    {
        let from_pair = self.id_to_index(from_node_id);
        let to_pair = self.id_to_index(to_node_id);
        let ((f1, f2), (t1, t2)) = match (from_pair, to_pair) {
            (Some(fp), Some(tp)) => (fp, tp),
            _ => {
                return Err(NetworkError::UnknownNode);
            },
        };
        let fu = if !self.has_incoming(f1) {
            f1
        } else if !self.has_incoming(f2) {
            f2
        } else {
            f1
        };
        let tv = if !self.has_incoming(t1) {
            t1
        } else if !self.has_incoming(t2) {
            t2
        } else {
            t1
        };
        proof {
            assert(fu as int == spec_default_slot(self@, from_node_id));
            assert(tv as int == spec_default_slot(self@, to_node_id));
            lemma_slot_of_id(self@, fu as int);
            lemma_slot_of_id(self@, tv as int);
        }
        let i = self.edges.len();
        let ghost m0 = self@;
        let fo = self.get_other_toponode(fu).unwrap();
        let to = self.get_other_toponode(tv).unwrap();
        let e1 = TopoEdge {
            id: i,
            from: from_node_id,
            to: to_node_id,
            edge_id,
            source: fu,
            target: tv,
        };
        let e2 = TopoEdge {
            id: i + 1,
            from: to_node_id,
            to: from_node_id,
            edge_id,
            source: to,
            target: fo,
        };
        self.edges.push(e1);
        self.edges.push(e2);
        proof {
            lemma_append_mirror_pair_keeps_wf(m0, final(self)@, e1, e2);
        }
        Ok((i, i + 1))
    }

    /// Adds one dual edge directly between four given slots: a forward
    /// edge from `source1` to `target1` and a mirror edge from
    /// `source2` to `target2`.  An out-of-range slot index is rejected
    /// with `UnknownNode`; slots that do not mirror one another — the
    /// mirror edge must run between the dual pairs of the same two
    /// nodes, in the opposite direction — are rejected with
    /// `MismatchedPair`; the pair is added exactly otherwise.
    #[verifier::rlimit(80)]
    pub fn add_edge_pair(
        &mut self,
        source1: usize,
        target1: usize,
        source2: usize,
        target2: usize,
        edge_id: EdgeId,
    ) -> (r: Result<(usize, usize), NetworkError>)
        requires
            old(self).wf(),
        ensures
            final(self).wf(),
            match r {
                Ok((i, j)) => {
                    &&& source1 < old(self)@.nodes.len()
                    &&& target1 < old(self)@.nodes.len()
                    &&& source2 < old(self)@.nodes.len()
                    &&& target2 < old(self)@.nodes.len()
                    &&& node_id_at(old(self)@, source1 as int) == node_id_at(
                        old(self)@,
                        target2 as int,
                    )
                    &&& node_id_at(old(self)@, target1 as int) == node_id_at(
                        old(self)@,
                        source2 as int,
                    )
                    &&& i == old(self)@.edges.len()
                    &&& j == i + 1
                    &&& final(self)@.nodes == old(self)@.nodes
                    &&& final(self)@.edges == old(self)@.edges
                        .push(TopoEdge {
                            id: i,
                            from: node_id_at(old(self)@, source1 as int),
                            to: node_id_at(old(self)@, target1 as int),
                            edge_id,
                            source: source1,
                            target: target1,
                        })
                        .push(TopoEdge {
                            id: j,
                            from: node_id_at(old(self)@, source2 as int),
                            to: node_id_at(old(self)@, target2 as int),
                            edge_id,
                            source: source2,
                            target: target2,
                        })
                },
                Err(e) => {
                    &&& final(self)@ == old(self)@
                    &&& (e == NetworkError::UnknownNode || e == NetworkError::MismatchedPair)
                    &&& (e == NetworkError::UnknownNode <==> !(source1 < old(self)@.nodes.len()
                        && target1 < old(self)@.nodes.len() && source2 < old(self)@.nodes.len()
                        && target2 < old(self)@.nodes.len()))
                    &&& (e == NetworkError::MismatchedPair ==> !(node_id_at(
                        old(self)@,
                        source1 as int,
                    ) == node_id_at(old(self)@, target2 as int) && node_id_at(
                        old(self)@,
                        target1 as int,
                    ) == node_id_at(old(self)@, source2 as int)))
                },
            },
    {
        let n = self.nodes.len();
        if source1 >= n || target1 >= n || source2 >= n || target2 >= n {
            return Err(NetworkError::UnknownNode);
        }
        if self.nodes[source1].node_id != self.nodes[target2].node_id
            || self.nodes[target1].node_id != self.nodes[source2].node_id {
            return Err(NetworkError::MismatchedPair);
        }
        let i = self.edges.len();
        let ghost m0 = self@;
        let e1 = TopoEdge {
            id: i,
            from: self.nodes[source1].node_id,
            to: self.nodes[target1].node_id,
            edge_id,
            source: source1,
            target: target1,
        };
        let e2 = TopoEdge {
            id: i + 1,
            from: self.nodes[source2].node_id,
            to: self.nodes[target2].node_id,
            edge_id,
            source: source2,
            target: target2,
        };
        self.edges.push(e1);
        self.edges.push(e2);
        proof {
            lemma_append_mirror_pair_keeps_wf(m0, final(self)@, e1, e2);
        }
        Ok((i, i + 1))
    }

    /// Adds a dual edge with an accessibility constraint.  For
    /// `ReachableNodes` the slot pair checked is `(Incoming, Outgoing)`
    /// and for `UnreachableNodes` it is `(Outgoing, Incoming)`: the
    /// `from` endpoint uses the first slot with no edge opposite to the
    /// first direction towards the listed nodes, and the `to` endpoint
    /// the first slot with no edge opposite to the second direction.
    /// When either endpoint has no such slot — in particular when an
    /// endpoint identifier is absent — the edge is rejected with
    /// `NoSlotAvailable`, and exactly then.
    #[verifier::rlimit(80)]
    pub fn add_edge_with_accessibility(
        &mut self,
        edge_id: EdgeId,
        from_node_id: NodeId,
        to_node_id: NodeId,
        accessability: Accessability,
    ) -> (r: Result<(usize, usize), NetworkError>)
        requires
            old(self).wf(),
        ensures
            final(self).wf(),
            ({
                let d0 = if accessability.is_reachable_variant() {
                    Direction::Incoming
                } else {
                    Direction::Outgoing
                };
                let u1 = spec_find_slot(old(self)@, from_node_id, accessability.spec_nodes(), d0);
                let v1 = spec_find_slot(
                    old(self)@,
                    to_node_id,
                    accessability.spec_nodes(),
                    d0.spec_opposite(),
                );
                match r {
                    Ok((i, j)) => {
                        &&& u1 is Some
                        &&& v1 is Some
                        &&& i == old(self)@.edges.len()
                        &&& j == i + 1
                        &&& final(self)@.nodes == old(self)@.nodes
                        &&& final(self)@.edges == old(self)@.edges
                            .push(TopoEdge {
                                id: i,
                                from: from_node_id,
                                to: to_node_id,
                                edge_id,
                                source: u1.unwrap() as usize,
                                target: v1.unwrap() as usize,
                            })
                            .push(TopoEdge {
                                id: j,
                                from: to_node_id,
                                to: from_node_id,
                                edge_id,
                                source: mate(v1.unwrap()) as usize,
                                target: mate(u1.unwrap()) as usize,
                            })
                    },
                    Err(e) => {
                        &&& e == NetworkError::NoSlotAvailable
                        &&& (u1 is None || v1 is None)
                        &&& final(self)@ == old(self)@
                    },
                }
            }),
    {
        let dir0 = match &accessability {
            Accessability::ReachableNodes(_) => Direction::Incoming,
            Accessability::UnreachableNodes(_) => Direction::Outgoing,
        };
        let dir1 = dir0.opposite();
        let ns = match &accessability {
            Accessability::ReachableNodes(nodes) => nodes,
            Accessability::UnreachableNodes(nodes) => nodes,
        };
        let u1 = self.find_node_index_with_edges(from_node_id, ns, dir0);
        let v1 = self.find_node_index_with_edges(to_node_id, ns, dir1);
        let (u1, v1) = match (u1, v1) {
            (Some(u1), Some(v1)) => (u1, v1),
            _ => {
                return Err(NetworkError::NoSlotAvailable);
            },
        };
        proof {
            lemma_slot_of_id(self@, u1 as int);
            lemma_slot_of_id(self@, v1 as int);
        }
        let u2 = self.get_other_toponode(u1).unwrap();
        let v2 = self.get_other_toponode(v1).unwrap();
        let i = self.edges.len();
        let ghost m0 = self@;
        let e1 = TopoEdge {
            id: i,
            from: from_node_id,
            to: to_node_id,
            edge_id,
            source: u1,
            target: v1,
        };
        let e2 = TopoEdge {
            id: i + 1,
            from: to_node_id,
            to: from_node_id,
            edge_id,
            source: v2,
            target: u2,
        };
        self.edges.push(e1);
        self.edges.push(e2);
        proof {
            assert(node_id_at(m0, u1 as int) == from_node_id) by {
                let d0 = if accessability.is_reachable_variant() {
                    Direction::Incoming
                } else {
                    Direction::Outgoing
                };
                assert(spec_find_slot(m0, from_node_id, accessability.spec_nodes(), d0) == Some(
                    u1 as int,
                ));
            }
            assert(node_id_at(m0, v1 as int) == to_node_id) by {
                let d0 = if accessability.is_reachable_variant() {
                    Direction::Incoming
                } else {
                    Direction::Outgoing
                };
                assert(spec_find_slot(
                    m0,
                    to_node_id,
                    accessability.spec_nodes(),
                    d0.spec_opposite(),
                ) == Some(v1 as int));
            }
            lemma_append_mirror_pair_keeps_wf(m0, final(self)@, e1, e2);
        }
        Ok((i, i + 1))
    }

    /// Reverses the direction of the edge at `edge_index`: its source
    /// and target slots are swapped and everything else is kept.
    /// Reversing a single directed edge breaks the mirror relation of
    /// its dual pair; `TopologyGraphRepairer::reverse_dual_edge`
    /// reverses both members and restores it.
    pub fn reverse_edge(&mut self, edge_index: usize)
        requires
            edge_index < old(self)@.edges.len(),
        ensures
            final(self)@.nodes == old(self)@.nodes,
            final(self)@.edges == old(self)@.edges.update(
                edge_index as int,
                TopoEdge {
                    source: old(self)@.edges[edge_index as int].target,
                    target: old(self)@.edges[edge_index as int].source,
                    ..old(self)@.edges[edge_index as int]
                },
            ),
    {
        let s = self.edges[edge_index].source;
        let t = self.edges[edge_index].target;
        let old_edge = self.edges[edge_index];
        self.edges[edge_index] = TopoEdge { source: t, target: s, ..old_edge };
    }

    /// Replaces the edge stored at `edge_index`.
    pub(crate) fn set_edge(&mut self, edge_index: usize, edge: TopoEdge)
        requires
            edge_index < old(self)@.edges.len(),
        ensures
            final(self)@.nodes == old(self)@.nodes,
            final(self)@.edges == old(self)@.edges.update(edge_index as int, edge),
    {
        self.edges[edge_index] = edge;
    }

    /// Returns the arena indices of the two edges running between the
    /// dual pairs of `node1_id` and `node2_id`, in ascending order.
    /// Succeeds only if exactly two such edges exist — the doubled-edge
    /// invariant that callers rely on — and returns `None` otherwise.
    pub fn find_edge_indices(&self, node1_id: NodeId, node2_id: NodeId) -> (r: Option<
        (usize, usize),
    >)
        ensures
            match r {
                Some((e0, e1)) => {
                    &&& count_dual_between(self@, node1_id, node2_id, self@.edges.len() as int)
                        == 2
                    &&& dual_between(self@, e0 as int, node1_id, node2_id)
                    &&& dual_between(self@, e1 as int, node1_id, node2_id)
                    &&& e0 < e1
                    &&& forall|f: int|
                        #[trigger] dual_between(self@, f, node1_id, node2_id) ==> f == e0 || f
                            == e1
                },
                None => count_dual_between(self@, node1_id, node2_id, self@.edges.len() as int)
                    != 2,
            },
    {
        let n = self.edges.len();
        let nn = self.nodes.len();
        let mut e: usize = 0;
        let mut cnt: usize = 0;
        let mut first: usize = 0;
        let mut second: usize = 0;
        while e < n
            invariant
                n == self@.edges.len(),
                nn == self@.nodes.len(),
                e <= n,
                cnt <= e,
                cnt as int == count_dual_between(self@, node1_id, node2_id, e as int),
                cnt == 0 ==> forall|f: int| 0 <= f < e ==> !dual_between(
                    self@,
                    f,
                    node1_id,
                    node2_id,
                ),
                cnt >= 1 ==> dual_between(self@, first as int, node1_id, node2_id) && first < e,
                cnt == 1 ==> forall|f: int|
                    0 <= f < e && #[trigger] dual_between(self@, f, node1_id, node2_id) ==> f
                        == first,
                cnt >= 2 ==> dual_between(self@, second as int, node1_id, node2_id) && first
                    < second < e,
                cnt == 2 ==> forall|f: int|
                    0 <= f < e && #[trigger] dual_between(self@, f, node1_id, node2_id) ==> f
                        == first || f == second,
            decreases n - e,
        {
            let s = self.edges[e].source;
            let t = self.edges[e].target;
            let qualifies = if s < nn && t < nn {
                let sid = self.nodes[s].node_id;
                let tid = self.nodes[t].node_id;
                (sid == node1_id && tid == node2_id) || (sid == node2_id && tid == node1_id)
            } else {
                false
            };
            proof {
                assert(qualifies == dual_between(self@, e as int, node1_id, node2_id));
                assert(count_dual_between(self@, node1_id, node2_id, e as int + 1)
                    == count_dual_between(self@, node1_id, node2_id, e as int) + if dual_between(
                    self@,
                    e as int,
                    node1_id,
                    node2_id,
                ) {
                    1int
                } else {
                    0int
                });
            }
            if qualifies {
                if cnt == 0 {
                    first = e;
                } else if cnt == 1 {
                    second = e;
                }
                cnt += 1;
            }
            e += 1;
        }
        if cnt == 2 {
            proof {
                assert forall|f: int|
                    #[trigger] dual_between(self@, f, node1_id, node2_id) implies f == first as int
                    || f == second as int by {}
            }
            Some((first, second))
        } else {
            None
        }
    }

    /// Checks if the edge at `edge_index` is in the same direction as
    /// its neighbouring edges.
    pub fn edge_is_in_neighbors_direction(&self, edge_index: usize) -> (r: bool)
        requires
            edge_index < self@.edges.len(),
        ensures
            r == spec_dir_consent(self@, edge_index as int),
    {
        let source = self.edges[edge_index].source;
        let target = self.edges[edge_index].target;
        let n = self.edges.len();
        let mut source_ok = false;
        let mut f: usize = 0;
        while f < n
            invariant
                n == self@.edges.len(),
                edge_index < n,
                f <= n,
                source == self@.edges[edge_index as int].source,
                target == self@.edges[edge_index as int].target,
                source_ok == exists|g: int|
                    0 <= g < f && (#[trigger] self@.edges[g]).target == source
                        && self@.edges[g].source != target,
            decreases n - f,
        {
            if self.edges[f].target == source && self.edges[f].source != target {
                source_ok = true;
            }
            f += 1;
        }
        if !source_ok {
            return false;
        }
        let mut target_ok = false;
        let mut g: usize = 0;
        while g < n
            invariant
                n == self@.edges.len(),
                edge_index < n,
                g <= n,
                source == self@.edges[edge_index as int].source,
                target == self@.edges[edge_index as int].target,
                target_ok == exists|h: int|
                    0 <= h < g && (#[trigger] self@.edges[h]).source == target
                        && self@.edges[h].target != source,
            decreases n - g,
        {
            if self.edges[g].source == target && self.edges[g].target != source {
                target_ok = true;
            }
            g += 1;
        }
        target_ok
    }
}

impl Default for TopologyGraph {
    /// A new, empty `TopologyGraph`.
    fn default() -> (r: Self)
        ensures
            r@.nodes.len() == 0 && r@.edges.len() == 0,
            r.wf(),
    {
        TopologyGraph::new()
    }
}

/// The default slot of a present node is a valid slot of that node, and
/// so is its mate.
pub proof fn lemma_default_slot(m: TopoModel, id: NodeId)
    requires
        topo_wf(m),
        topo_has_pair(m, id),
    ensures
        ({
            let s = spec_default_slot(m, id);
            &&& 0 <= s < m.nodes.len()
            &&& node_id_at(m, s) == id
            &&& 0 <= mate(s) < m.nodes.len()
            &&& node_id_at(m, mate(s)) == id
        }),
{
    let p = topo_pair_first(m, id);
    assert(0 <= p < m.nodes.len() && p % 2 == 0 && m.nodes[p].node_id == id);
    lemma_slot_of_id(m, p);
    lemma_slot_of_id(m, p + 1);
}

/// A slot selected by `spec_find_slot` is a valid slot of the queried
/// node, and so is its mate.
pub proof fn lemma_find_slot(m: TopoModel, id: NodeId, ns: Seq<NodeId>, dir: Direction)
    requires
        topo_wf(m),
        spec_find_slot(m, id, ns, dir) is Some,
    ensures
        ({
            let s = spec_find_slot(m, id, ns, dir).unwrap();
            &&& 0 <= s < m.nodes.len()
            &&& node_id_at(m, s) == id
            &&& 0 <= mate(s) < m.nodes.len()
            &&& node_id_at(m, mate(s)) == id
        }),
{
    let p = topo_pair_first(m, id);
    assert(0 <= p < m.nodes.len() && p % 2 == 0 && m.nodes[p].node_id == id);
    lemma_slot_of_id(m, p);
    lemma_slot_of_id(m, p + 1);
}

/// Appending a mirror pair of edges with correct indices and valid
/// endpoints preserves well-formedness.
proof fn lemma_append_mirror_pair_keeps_wf(m0: TopoModel, m1: TopoModel, e1: TopoEdge, e2: TopoEdge)
    requires
        topo_wf(m0),
        m0.edges.len() + 1 <= usize::MAX,
        m1.nodes == m0.nodes,
        m1.edges == m0.edges.push(e1).push(e2),
        e1.id == m0.edges.len(),
        e2.id == m0.edges.len() + 1,
        e1.source < m0.nodes.len(),
        e1.target < m0.nodes.len(),
        e2.source < m0.nodes.len(),
        e2.target < m0.nodes.len(),
        node_id_at(m0, e1.source as int) == node_id_at(m0, e2.target as int),
        node_id_at(m0, e1.target as int) == node_id_at(m0, e2.source as int),
        e1.edge_id == e2.edge_id,
    ensures
        topo_wf(m1),
{
    let n = m0.edges.len() as int;
    assert forall|e: int| 0 <= e < m1.edges.len() implies {
        &&& (#[trigger] m1.edges[e]).id == e
        &&& m1.edges[e].source < m1.nodes.len()
        &&& m1.edges[e].target < m1.nodes.len()
    } by {
        if e < n {
            assert(m1.edges[e] == m0.edges[e]);
        } else if e == n {
            assert(m1.edges[e] == e1);
        } else {
            assert(m1.edges[e] == e2);
        }
    }
    assert forall|e: int|
        0 <= e < m1.edges.len() && e % 2 == 0 implies #[trigger] mirror_ok(m1, e) by {
        if e < n {
            assert(mirror_ok(m0, e));
            assert(m1.edges[e] == m0.edges[e]);
            assert(m1.edges[e + 1] == m0.edges[e + 1]);
        } else {
            assert(e == n);
            assert(m1.edges[e] == e1);
            assert(m1.edges[e + 1] == e2);
        }
    }
}

/// Appending a fresh dual pair of slots for an absent node identifier
/// preserves well-formedness.
#[verifier::rlimit(100)]
proof fn lemma_add_pair_keeps_wf(m0: TopoModel, m1: TopoModel, node_id: NodeId)
    requires
        topo_wf(m0),
        !topo_has_pair(m0, node_id),
        m0.nodes.len() + 1 <= usize::MAX,
        m1.edges == m0.edges,
        m1.nodes == m0.nodes
            .push(TopoNode { id: m0.nodes.len() as usize, node_id })
            .push(TopoNode { id: (m0.nodes.len() + 1) as usize, node_id }),
    ensures
        topo_wf(m1),
{
    let n = m0.nodes.len() as int;
    assert forall|i: int| 0 <= i < m1.nodes.len() implies (#[trigger] m1.nodes[i]).id == i by {
        if i < n {
            assert(m1.nodes[i] == m0.nodes[i]);
        }
    }
    assert forall|i: int|
        0 <= i < m1.nodes.len() implies node_id_at(m1, mate(i)) == (#[trigger] m1.nodes[i]).node_id by {
        if i < n {
            assert(m1.nodes[i] == m0.nodes[i]);
            assert(0 <= mate(i) < n) by {
                assert(m0.nodes[i].id == i);
            }
            assert(m1.nodes[mate(i)] == m0.nodes[mate(i)]);
        } else {
            assert(n % 2 == 0);
        }
    }
    assert forall|i: int, j: int|
        0 <= i < m1.nodes.len() && 0 <= j < m1.nodes.len()
            && (#[trigger] m1.nodes[i]).node_id == (#[trigger] m1.nodes[j]).node_id
        implies i / 2 == j / 2 by {
        if i < n && j < n {
            assert(m1.nodes[i] == m0.nodes[i]);
            assert(m1.nodes[j] == m0.nodes[j]);
        } else if i < n && j >= n {
            assert(m1.nodes[j].node_id == node_id);
            assert(m1.nodes[i] == m0.nodes[i]);
            let w = if i % 2 == 0 { i } else { mate(i) };
            assert(node_id_at(m0, mate(i)) == m0.nodes[i].node_id);
            assert(0 <= mate(i) < n) by {
                assert(m0.nodes[i].id == i);
                assert(n % 2 == 0);
            }
            assert(0 <= w < n && w % 2 == 0 && m0.nodes[w].node_id == node_id);
            assert(false);
        } else if i >= n && j < n {
            assert(m1.nodes[i].node_id == node_id);
            assert(m1.nodes[j] == m0.nodes[j]);
            let w = if j % 2 == 0 { j } else { mate(j) };
            assert(node_id_at(m0, mate(j)) == m0.nodes[j].node_id);
            assert(0 <= mate(j) < n) by {
                assert(m0.nodes[j].id == j);
                assert(n % 2 == 0);
            }
            assert(0 <= w < n && w % 2 == 0 && m0.nodes[w].node_id == node_id);
            assert(false);
        }
    }
    assert forall|e: int| 0 <= e < m1.edges.len() implies {
        &&& (#[trigger] m1.edges[e]).id == e
        &&& m1.edges[e].source < m1.nodes.len()
        &&& m1.edges[e].target < m1.nodes.len()
    } by {
        assert(m1.edges[e] == m0.edges[e]);
    }
    assert forall|e: int|
        0 <= e < m1.edges.len() && e % 2 == 0 implies #[trigger] mirror_ok(m1, e) by {
        assert(mirror_ok(m0, e));
        assert(m1.edges[e] == m0.edges[e]);
        assert(m1.edges[e + 1] == m0.edges[e + 1]);
        assert(m1.nodes[m0.edges[e].source as int] == m0.nodes[m0.edges[e].source as int]);
        assert(m1.nodes[m0.edges[e].target as int] == m0.nodes[m0.edges[e].target as int]);
        assert(m1.nodes[m0.edges[e + 1].source as int] == m0.nodes[m0.edges[e + 1].source as int]);
        assert(m1.nodes[m0.edges[e + 1].target as int] == m0.nodes[m0.edges[e + 1].target as int]);
    }
}

} // verus!

//! Direction repair for dual edges of the topological graph.
//!
//! Greedy slot selection can leave the two directed edges of a dual
//! edge pointing against the direction of their neighbours.  The repair
//! procedure locates the two edges between the dual pairs of two nodes
//! and corrects them in two steps: first it reverses both edges, and if
//! the pair still disagrees with its neighbours it cross-links the
//! edges — reconnecting source to source and target to target — as a
//! structural fallback.

use crate::base::NodeId;
use crate::topology::{
    count_dual_between, dual_between, mate, mirror_ok, node_id_at, spec_dir_consent, topo_wf,
    TopoEdge, TopoModel, TopologyGraph,
};
use vstd::prelude::*;

verus! {

/// Whether `e0` and `e1` are, in ascending order, the only two edges of
/// `m` running between the dual pairs of `a` and `b`.
pub open spec fn is_exact_dual_pair(m: TopoModel, a: NodeId, b: NodeId, e0: int, e1: int) -> bool {
    &&& dual_between(m, e0, a, b)
    &&& dual_between(m, e1, a, b)
    &&& e0 < e1
    &&& forall|f: int| #[trigger] dual_between(m, f, a, b) ==> f == e0 || f == e1
}

/// Whether exactly two edges of `m` run between the dual pairs of `a`
/// and `b`.
pub open spec fn has_exact_dual_pair(m: TopoModel, a: NodeId, b: NodeId) -> bool {
    exists|e0: int, e1: int| is_exact_dual_pair(m, a, b, e0, e1)
}

/// The two edges of `m` running between the dual pairs of `a` and `b`,
/// in ascending order.
pub open spec fn spec_find_pair(m: TopoModel, a: NodeId, b: NodeId) -> (int, int) {
    choose|e0: int, e1: int| is_exact_dual_pair(m, a, b, e0, e1)
}

/// The model with the edge at `e` reversed in place.
pub open spec fn spec_reverse_one(m: TopoModel, e: int) -> TopoModel {
    TopoModel {
        nodes: m.nodes,
        edges: m.edges.update(
            e,
            TopoEdge { source: m.edges[e].target, target: m.edges[e].source, ..m.edges[e] },
        ),
    }
}

/// The model after reversing both edges of the dual edge between `a`
/// and `b`, when that pair can be located, and `m` unchanged otherwise.
pub open spec fn spec_reverse_dual(m: TopoModel, a: NodeId, b: NodeId) -> TopoModel {
    if has_exact_dual_pair(m, a, b) {
        let (e0, e1) = spec_find_pair(m, a, b);
        spec_reverse_one(spec_reverse_one(m, e0), e1)
    } else {
        m
    }
}

/// The model after cross-linking the dual edge between `a` and `b`:
/// the two located edges are replaced by an edge from the first edge's
/// source to the second edge's source and an edge from the first
/// edge's target to the second edge's target.  When the pair cannot be
/// located, `m` is unchanged.
pub open spec fn spec_cross_link(m: TopoModel, a: NodeId, b: NodeId) -> TopoModel {
    if has_exact_dual_pair(m, a, b) {
        let (e0, e1) = spec_find_pair(m, a, b);
        TopoModel {
            nodes: m.nodes,
            edges: m.edges
                .update(
                    e0,
                    TopoEdge {
                        source: m.edges[e0].source,
                        target: m.edges[e1].source,
                        ..m.edges[e0]
                    },
                )
                .update(
                    e1,
                    TopoEdge {
                        source: m.edges[e0].target,
                        target: m.edges[e1].target,
                        ..m.edges[e1]
                    },
                ),
        }
    } else {
        m
    }
}

/// Whether the repair guard fires in `m`: the dual pair between `a`
/// and `b` can be located and neither of its edges agrees with its
/// neighbours' direction.
pub open spec fn spec_repair_guard(m: TopoModel, a: NodeId, b: NodeId) -> bool {
    has_exact_dual_pair(m, a, b) && {
        let (e0, e1) = spec_find_pair(m, a, b);
        !spec_dir_consent(m, e0) && !spec_dir_consent(m, e1)
    }
}

/// The model after one repair of the dual edge between `a` and `b`:
/// reverse both edges if neither agrees with its neighbours'
/// direction, then cross-link them if they still both disagree.
pub open spec fn spec_repair_edge(m: TopoModel, a: NodeId, b: NodeId) -> TopoModel {
    let m1 = if spec_repair_guard(m, a, b) {
        spec_reverse_dual(m, a, b)
    } else {
        m
    };
    if spec_repair_guard(m1, a, b) {
        spec_cross_link(m1, a, b)
    } else {
        m1
    }
}

/// An exact dual pair is unique, so any pair of indices satisfying
/// `is_exact_dual_pair` is `spec_find_pair`.
pub proof fn lemma_exact_pair_unique(m: TopoModel, a: NodeId, b: NodeId, e0: int, e1: int)
    requires
        is_exact_dual_pair(m, a, b, e0, e1),
    ensures
        has_exact_dual_pair(m, a, b),
        spec_find_pair(m, a, b) == (e0, e1),
{
    assert(has_exact_dual_pair(m, a, b));
    let (w0, w1) = spec_find_pair(m, a, b);
    assert(is_exact_dual_pair(m, a, b, w0, w1));
    assert(dual_between(m, w0, a, b));
    assert(dual_between(m, w1, a, b));
    assert(dual_between(m, e0, a, b));
    assert(dual_between(m, e1, a, b));
}

/// An exact dual pair has exactly two qualifying edges among the first
/// `n`, as counted by `count_dual_between`.
pub proof fn lemma_count_of_exact_pair(m: TopoModel, a: NodeId, b: NodeId, e0: int, e1: int, n: int)
    requires
        is_exact_dual_pair(m, a, b, e0, e1),
        0 <= n <= m.edges.len(),
    ensures
        count_dual_between(m, a, b, n) == (if e0 < n { 1int } else { 0int })
            + (if e1 < n { 1int } else { 0int }),
    decreases n,
{
    if n > 0 {
        lemma_count_of_exact_pair(m, a, b, e0, e1, n - 1);
        if dual_between(m, n - 1, a, b) {
            assert(n - 1 == e0 || n - 1 == e1);
        }
    }
}

/// The two-edge count characterises an exact dual pair.
pub proof fn lemma_count_two_iff_exact(m: TopoModel, a: NodeId, b: NodeId)
    ensures
        has_exact_dual_pair(m, a, b) <==> count_dual_between(m, a, b, m.edges.len() as int) == 2,
{
    if has_exact_dual_pair(m, a, b) {
        let (e0, e1) = spec_find_pair(m, a, b);
        assert(is_exact_dual_pair(m, a, b, e0, e1));
        lemma_count_of_exact_pair(m, a, b, e0, e1, m.edges.len() as int);
    }
    if count_dual_between(m, a, b, m.edges.len() as int) == 2 {
        lemma_exact_pair_from_count(m, a, b, m.edges.len() as int);
    }
}

/// A prefix with a two-edge count holds an exact dual pair of the
/// whole model restricted to that prefix.
proof fn lemma_exact_pair_from_count(m: TopoModel, a: NodeId, b: NodeId, n: int)
    requires
        0 <= n <= m.edges.len(),
        count_dual_between(m, a, b, n) == 2,
        forall|f: int| n <= f < m.edges.len() ==> !(#[trigger] dual_between(m, f, a, b)),
    ensures
        has_exact_dual_pair(m, a, b),
    decreases n,
{
    assert(n > 0);
    if dual_between(m, n - 1, a, b) {
        assert(count_dual_between(m, a, b, n - 1) == 1);
        let e0 = lemma_single_from_count(m, a, b, n - 1);
        assert(is_exact_dual_pair(m, a, b, e0, n - 1)) by {
            assert forall|f: int| #[trigger] dual_between(m, f, a, b) implies f == e0 || f == n
                - 1 by {
                if f < n - 1 {
                    lemma_count_monotone_bound(m, a, b, f, n - 1);
                }
            }
        }
    } else {
        lemma_exact_pair_from_count(m, a, b, n - 1);
    }
}

/// A prefix with a one-edge count yields that edge's index; every
/// qualifying index below the prefix equals it.
proof fn lemma_single_from_count(m: TopoModel, a: NodeId, b: NodeId, n: int) -> (e: int)
    requires
        0 <= n <= m.edges.len(),
        count_dual_between(m, a, b, n) == 1,
    ensures
        0 <= e < n,
        dual_between(m, e, a, b),
        forall|f: int| 0 <= f < n && #[trigger] dual_between(m, f, a, b) ==> f == e,
    decreases n,
{
    assert(n > 0);
    if dual_between(m, n - 1, a, b) {
        assert(count_dual_between(m, a, b, n - 1) == 0);
        assert forall|f: int| 0 <= f < n && #[trigger] dual_between(m, f, a, b) implies f == n
            - 1 by {
            if f < n - 1 {
                lemma_count_monotone_bound(m, a, b, f, n - 1);
            }
        }
        n - 1
    } else {
        let e = lemma_single_from_count(m, a, b, n - 1);
        e
    }
}

/// The dual-edge count is never negative.
proof fn lemma_count_nonneg(m: TopoModel, a: NodeId, b: NodeId, n: int)
    ensures
        count_dual_between(m, a, b, n) >= 0,
    decreases n,
{
    if n > 0 {
        lemma_count_nonneg(m, a, b, n - 1);
    }
}

/// A qualifying index below `n` forces a positive count at `n`.
proof fn lemma_count_monotone_bound(m: TopoModel, a: NodeId, b: NodeId, f: int, n: int)
    requires
        0 <= f < n <= m.edges.len(),
        dual_between(m, f, a, b),
    ensures
        count_dual_between(m, a, b, n) >= 1,
        count_dual_between(m, a, b, f + 1) >= 1,
    decreases n,
{
    lemma_count_nonneg(m, a, b, f);
    if n == f + 1 {
    } else {
        lemma_count_monotone_bound(m, a, b, f, n - 1);
    }
}

/// In a well-formed model, the two edges of an exact dual pair are the
/// two members of one mirror pair: adjacent indices, the lower one
/// even.
pub proof fn lemma_exact_pair_are_mates(m: TopoModel, a: NodeId, b: NodeId, e0: int, e1: int)
    requires
        topo_wf(m),
        is_exact_dual_pair(m, a, b, e0, e1),
    ensures
        e0 % 2 == 0,
        e1 == e0 + 1,
{
    assert(dual_between(m, e0, a, b));
    if e0 % 2 == 0 {
        assert(mirror_ok(m, e0));
        assert(e0 + 1 < m.edges.len()) by {
            assert(m.edges[e0].id == e0);
            assert(m.edges.len() % 2 == 0);
        }
        assert(dual_between(m, e0 + 1, a, b)) by {
            assert(m.edges[e0 + 1].id == e0 + 1);
        }
        assert(e0 + 1 == e0 || e0 + 1 == e1);
    } else {
        let p = e0 - 1;
        assert(0 <= p < m.edges.len());
        assert(p % 2 == 0);
        assert(mirror_ok(m, p));
        assert(dual_between(m, p, a, b)) by {
            assert(m.edges[p].id == p);
        }
        assert(p == e0 || p == e1);
        assert(false);
    }
}

/// Reversing both members of an exact dual pair preserves
/// well-formedness, keeps the node arena, the edge count, every edge's
/// physical edge identifier, and the unordered pair of node
/// identifiers every edge runs between.
pub proof fn lemma_reverse_dual_wf(m: TopoModel, a: NodeId, b: NodeId)
    requires
        topo_wf(m),
    ensures
        topo_wf(spec_reverse_dual(m, a, b)),
        spec_reverse_dual(m, a, b).nodes == m.nodes,
        spec_reverse_dual(m, a, b).edges.len() == m.edges.len(),
        forall|e: int|
            0 <= e < m.edges.len() ==> (#[trigger] spec_reverse_dual(m, a, b).edges[e]).edge_id
                == m.edges[e].edge_id,
        forall|e: int, x: NodeId, y: NodeId|
            #[trigger] dual_between(spec_reverse_dual(m, a, b), e, x, y) <==> dual_between(
                m,
                e,
                x,
                y,
            ),
{
    if has_exact_dual_pair(m, a, b) {
        let (e0, e1) = spec_find_pair(m, a, b);
        assert(is_exact_dual_pair(m, a, b, e0, e1));
        lemma_exact_pair_are_mates(m, a, b, e0, e1);
        let m1 = spec_reverse_dual(m, a, b);
        assert(m1.edges.len() == m.edges.len());
        assert forall|e: int, x: NodeId, y: NodeId|
            #[trigger] dual_between(m1, e, x, y) <==> dual_between(m, e, x, y) by {
            if 0 <= e < m.edges.len() && e != e0 && e != e1 {
                assert(m1.edges[e] == m.edges[e]);
            }
        }
        assert forall|e: int| 0 <= e < m1.edges.len() implies {
            &&& (#[trigger] m1.edges[e]).id == e
            &&& m1.edges[e].source < m1.nodes.len()
            &&& m1.edges[e].target < m1.nodes.len()
        } by {
            if e != e0 && e != e1 {
                assert(m1.edges[e] == m.edges[e]);
            }
        }
        assert forall|e: int|
            0 <= e < m1.edges.len() && e % 2 == 0 implies #[trigger] mirror_ok(m1, e) by {
            assert(mirror_ok(m, e));
            if e != e0 {
                assert(m1.edges[e] == m.edges[e]);
                assert(m1.edges[e + 1] == m.edges[e + 1]);
            }
        }
    }
}

/// Cross-linking an exact dual pair preserves well-formedness, keeps
/// the node arena, the edge count, every edge's physical edge
/// identifier, and the unordered pair of node identifiers every edge
/// runs between.
#[verifier::rlimit(80)]
pub proof fn lemma_cross_link_wf(m: TopoModel, a: NodeId, b: NodeId)
    requires
        topo_wf(m),
    ensures
        topo_wf(spec_cross_link(m, a, b)),
        spec_cross_link(m, a, b).nodes == m.nodes,
        spec_cross_link(m, a, b).edges.len() == m.edges.len(),
        forall|e: int|
            0 <= e < m.edges.len() ==> (#[trigger] spec_cross_link(m, a, b).edges[e]).edge_id
                == m.edges[e].edge_id,
        forall|e: int, x: NodeId, y: NodeId|
            #[trigger] dual_between(spec_cross_link(m, a, b), e, x, y) <==> dual_between(
                m,
                e,
                x,
                y,
            ),
{
    if has_exact_dual_pair(m, a, b) {
        let (e0, e1) = spec_find_pair(m, a, b);
        assert(is_exact_dual_pair(m, a, b, e0, e1));
        lemma_exact_pair_are_mates(m, a, b, e0, e1);
        let m1 = spec_cross_link(m, a, b);
        assert(m1.edges.len() == m.edges.len());
        assert(mirror_ok(m, e0));
        assert forall|e: int, x: NodeId, y: NodeId|
            #[trigger] dual_between(m1, e, x, y) <==> dual_between(m, e, x, y) by {
            if 0 <= e < m.edges.len() && e != e0 && e != e1 {
                assert(m1.edges[e] == m.edges[e]);
            }
        }
        assert forall|e: int| 0 <= e < m1.edges.len() implies {
            &&& (#[trigger] m1.edges[e]).id == e
            &&& m1.edges[e].source < m1.nodes.len()
            &&& m1.edges[e].target < m1.nodes.len()
        } by {
            if e != e0 && e != e1 {
                assert(m1.edges[e] == m.edges[e]);
            }
        }
        assert forall|e: int|
            0 <= e < m1.edges.len() && e % 2 == 0 implies #[trigger] mirror_ok(m1, e) by {
            assert(mirror_ok(m, e));
            if e != e0 {
                assert(m1.edges[e] == m.edges[e]);
                assert(m1.edges[e + 1] == m.edges[e + 1]);
            }
        }
    }
}

/// One repair of a dual edge preserves well-formedness and keeps the
/// node arena, the edge count, every edge's physical edge identifier,
/// and the unordered pair of node identifiers every edge runs between.
pub proof fn lemma_repair_edge_wf(m: TopoModel, a: NodeId, b: NodeId)
    requires
        topo_wf(m),
    ensures
        topo_wf(spec_repair_edge(m, a, b)),
        spec_repair_edge(m, a, b).nodes == m.nodes,
        spec_repair_edge(m, a, b).edges.len() == m.edges.len(),
        forall|e: int|
            0 <= e < m.edges.len() ==> (#[trigger] spec_repair_edge(m, a, b).edges[e]).edge_id
                == m.edges[e].edge_id,
        forall|e: int, x: NodeId, y: NodeId|
            #[trigger] dual_between(spec_repair_edge(m, a, b), e, x, y) <==> dual_between(
                m,
                e,
                x,
                y,
            ),
{
    lemma_reverse_dual_wf(m, a, b);
    let m1 = if spec_repair_guard(m, a, b) {
        spec_reverse_dual(m, a, b)
    } else {
        m
    };
    lemma_cross_link_wf(m1, a, b);
}

/// `TopologyGraphRepairer` provides functionality to manipulate and
/// repair dual edges in a topological graph.
pub trait TopologyGraphRepairer {
    /// The invariant that the repair operations keep.
    spec fn repair_inv(&self) -> bool;

    /// Repairs the direction of the dual edge between `node1` and
    /// `node2` if it is inconsistently directed.
    ///
    /// When the two edges between the dual pairs of the nodes can be
    /// located and neither agrees with its neighbours' direction, both
    /// are reversed; if they still both disagree, they are cross-linked
    /// as a structural fallback.  An already-consistent pair — and a
    /// pair that cannot be located — is left untouched.
    fn repair_edge(&mut self, node1: NodeId, node2: NodeId)
        requires
            old(self).repair_inv(),
        ensures
            final(self).repair_inv(),
    ;

    /// Reverses the dual edge between the two given nodes: both of its
    /// directed edges swap source and target.
    fn reverse_dual_edge(&mut self, node1: NodeId, node2: NodeId)
        requires
            old(self).repair_inv(),
        ensures
            final(self).repair_inv(),
    ;

    /// Cross-links the dual edge between the two given nodes: the two
    /// located edges are reconnected source to source and target to
    /// target.
    fn cross_link_dual_edge(&mut self, node1: NodeId, node2: NodeId)
        requires
            old(self).repair_inv(),
        ensures
            final(self).repair_inv(),
    ;
}

impl TopologyGraphRepairer for TopologyGraph {
    /// Well-formedness of the topological graph.
    open spec fn repair_inv(&self) -> bool {
        self.wf()
    }

    fn repair_edge(&mut self, node1: NodeId, node2: NodeId)
        ensures
            final(self)@ == spec_repair_edge(old(self)@, node1, node2),
    {
        let ghost m0 = self@;
        if let Some((e0, e1)) = self.find_edge_indices(node1, node2) {
            proof {
                lemma_exact_pair_unique(self@, node1, node2, e0 as int, e1 as int);
            }
            if !self.edge_is_in_neighbors_direction(e0) && !self.edge_is_in_neighbors_direction(e1)
            {
                proof {
                    assert(spec_repair_guard(self@, node1, node2));
                }
                self.reverse_dual_edge(node1, node2);
            } else {
                proof {
                    assert(!spec_repair_guard(self@, node1, node2));
                }
            }
        } else {
            proof {
                lemma_count_two_iff_exact(self@, node1, node2);
                assert(!spec_repair_guard(self@, node1, node2));
            }
        }
        proof {
            assert(self@ == if spec_repair_guard(m0, node1, node2) {
                spec_reverse_dual(m0, node1, node2)
            } else {
                m0
            });
        }
        let ghost m1 = self@;
        if let Some((e0, e1)) = self.find_edge_indices(node1, node2) {
            proof {
                lemma_exact_pair_unique(self@, node1, node2, e0 as int, e1 as int);
            }
            if !self.edge_is_in_neighbors_direction(e0) && !self.edge_is_in_neighbors_direction(e1)
            {
                proof {
                    assert(spec_repair_guard(self@, node1, node2));
                }
                self.cross_link_dual_edge(node1, node2);
            } else {
                proof {
                    assert(!spec_repair_guard(self@, node1, node2));
                }
            }
        } else {
            proof {
                lemma_count_two_iff_exact(self@, node1, node2);
                assert(!spec_repair_guard(self@, node1, node2));
            }
        }
        proof {
            assert(final(self)@ == if spec_repair_guard(m1, node1, node2) {
                spec_cross_link(m1, node1, node2)
            } else {
                m1
            });
        }
    }

    fn reverse_dual_edge(&mut self, node1: NodeId, node2: NodeId)
        ensures
            final(self)@ == spec_reverse_dual(old(self)@, node1, node2),
    {
        let ghost m0 = self@;
        if let Some((e0, e1)) = self.find_edge_indices(node1, node2) {
            proof {
                lemma_exact_pair_unique(self@, node1, node2, e0 as int, e1 as int);
            }
            self.reverse_edge(e0);
            self.reverse_edge(e1);
            proof {
                assert(final(self)@.edges =~= spec_reverse_dual(m0, node1, node2).edges);
                assert(final(self)@ =~= spec_reverse_dual(m0, node1, node2));
                lemma_reverse_dual_wf(m0, node1, node2);
            }
        } else {
            proof {
                lemma_count_two_iff_exact(self@, node1, node2);
            }
        }
    }

    fn cross_link_dual_edge(&mut self, node1: NodeId, node2: NodeId)
        ensures
            final(self)@ == spec_cross_link(old(self)@, node1, node2),
    {
        let ghost m0 = self@;
        if let Some((e0, e1)) = self.find_edge_indices(node1, node2) {
            proof {
                lemma_exact_pair_unique(self@, node1, node2, e0 as int, e1 as int);
            }
            let (source1, target1) = self.edge_endpoints(e0).unwrap();
            let (source2, target2) = self.edge_endpoints(e1).unwrap();
            let w1 = *self.edge_weight(e0).unwrap();
            let w2 = *self.edge_weight(e1).unwrap();
            self.set_edge(e0, TopoEdge { source: source1, target: source2, ..w1 });
            self.set_edge(e1, TopoEdge { source: target1, target: target2, ..w2 });
            proof {
                assert(final(self)@.edges =~= spec_cross_link(m0, node1, node2).edges);
                assert(final(self)@ =~= spec_cross_link(m0, node1, node2));
                lemma_cross_link_wf(m0, node1, node2);
            }
        } else {
            proof {
                lemma_count_two_iff_exact(self@, node1, node2);
            }
        }
    }
}

/// **Repair is a no-op on a consistent pair.**  When the dual edge
/// between `a` and `b` cannot be located, or one of its two edges
/// already agrees with its neighbours' direction, one repair leaves
/// the topological graph exactly as it is.
pub proof fn lemma_repair_noop_when_consistent(m: TopoModel, a: NodeId, b: NodeId)
    requires
        topo_wf(m),
        !spec_repair_guard(m, a, b),
    ensures
        spec_repair_edge(m, a, b) == m,
{
}

/// **Repair idempotence.**  Whenever one repair of the dual edge
/// between `a` and `b` ends in a state where that pair cannot be
/// located or no longer triggers the repair guard — in particular
/// whenever the reversal step restored the neighbours' direction — a
/// second repair changes nothing, so repairing twice produces the same
/// topological graph as repairing once.
pub proof fn lemma_repair_edge_idempotent(m: TopoModel, a: NodeId, b: NodeId)
    requires
        topo_wf(m),
        !spec_repair_guard(spec_repair_edge(m, a, b), a, b),
    ensures
        spec_repair_edge(spec_repair_edge(m, a, b), a, b) == spec_repair_edge(m, a, b),
{
    lemma_repair_edge_wf(m, a, b);
    lemma_repair_noop_when_consistent(spec_repair_edge(m, a, b), a, b);
}

/// **A repair that succeeds by reversal is stable.**  When neither
/// edge of the located dual pair agrees with its neighbours' direction
/// but both do once reversed, repairing leaves the pair consistent, so
/// a second repair changes nothing.
pub proof fn lemma_repair_then_stable(m: TopoModel, a: NodeId, b: NodeId)
    requires
        topo_wf(m),
        spec_repair_guard(m, a, b),
        ({
            let mr = spec_reverse_dual(m, a, b);
            has_exact_dual_pair(mr, a, b) && {
                let (f0, f1) = spec_find_pair(mr, a, b);
                spec_dir_consent(mr, f0) && spec_dir_consent(mr, f1)
            }
        }),
    ensures
        spec_repair_edge(spec_repair_edge(m, a, b), a, b) == spec_repair_edge(m, a, b),
{
    lemma_repair_edge_establishes_consent(m, a, b);
    lemma_repair_edge_idempotent(m, a, b);
}

/// **Repair establishes the neighbours' direction when reversal can.**
/// If neither edge of the located dual pair between `a` and `b` agrees
/// with its neighbours' direction, but both do once reversed, then one
/// repair ends with the reversed pair and both of its edges agree with
/// their neighbours' direction.
pub proof fn lemma_repair_edge_establishes_consent(m: TopoModel, a: NodeId, b: NodeId)
    requires
        topo_wf(m),
        spec_repair_guard(m, a, b),
        ({
            let mr = spec_reverse_dual(m, a, b);
            has_exact_dual_pair(mr, a, b) && {
                let (f0, f1) = spec_find_pair(mr, a, b);
                spec_dir_consent(mr, f0) && spec_dir_consent(mr, f1)
            }
        }),
    ensures
        spec_repair_edge(m, a, b) == spec_reverse_dual(m, a, b),
        ({
            let mf = spec_repair_edge(m, a, b);
            let (f0, f1) = spec_find_pair(mf, a, b);
            spec_dir_consent(mf, f0) && spec_dir_consent(mf, f1)
        }),
{
    let mr = spec_reverse_dual(m, a, b);
    assert(!spec_repair_guard(mr, a, b));
}

} // verus!

//! Accessibility-aware shortest-path search over the topological
//! graph.
//!
//! The search runs a uniform-cost search twice, once seeded from each
//! slot of the start node's dual pair, targeting either slot of the
//! destination's pair, and keeps the cheaper result.  Edge costs are
//! computed by resolving a topological edge back to the physical edge
//! between its endpoint node identifiers and applying a caller-supplied
//! cost strategy; an edge whose target node is named unreachable by the
//! accessibility constraint has no usable cost and is never taken.

use crate::accessability::Accessability;
use crate::base::NodeId;
use crate::edge::{EdgeModel, TransitEdge};
use crate::network::{lemma_net_has_node_iff, lemma_topo_edge_matches_phys, net_wf, TransitNetwork};
use crate::physical::{
    phys_first_edge_between, phys_has_edge_between, phys_has_node, PhysModel,
};
use crate::topology::{node_id_at, topo_has_edge, topo_pair_first, TopoModel};
use vstd::prelude::*;

verus! {

/// A strategy assigning a cost to a physical edge.  The cost is a
/// function of the edge alone, stated by `cost_spec` and computed by
/// `cost`.
pub trait EdgeCost {
    /// The cost assigned to `edge`.
    spec fn cost_spec(&self, edge: EdgeModel) -> u64;

    /// Returns the cost of `edge`.
    fn cost(&self, edge: &TransitEdge) -> (c: u64)
        ensures
            c == self.cost_spec(edge@),
    ;
}

/// The unit cost strategy: every edge costs one, so a cheapest route
/// is one with the fewest edges.
pub struct UnitCost;

impl EdgeCost for UnitCost {
    /// Every edge costs one.
    open spec fn cost_spec(&self, edge: EdgeModel) -> u64 {
        1u64
    }

    fn cost(&self, edge: &TransitEdge) -> (c: u64) {
        1
    }
}

/// The length cost strategy: every edge costs its stored length, so a
/// cheapest route is a shortest one.
pub struct LengthCost;

impl EdgeCost for LengthCost {
    /// Every edge costs its stored length.
    open spec fn cost_spec(&self, edge: EdgeModel) -> u64 {
        edge.length
    }

    fn cost(&self, edge: &TransitEdge) -> (c: u64) {
        edge.length
    }
}

/// The cost of travelling from `from` to `to`, or `None` when that
/// step is unusable: `None` when `to` is named unreachable by `acc`,
/// and otherwise the cost of the first physical edge joining the two
/// nodes, or `None` when the nodes are not both present and joined by
/// an edge.
///
/// Only the `UnreachableNodes` variant gates the cost: reachability
/// restrictions are enforced structurally, by which topological slot an
/// edge was wired to at insertion time, not by cost masking.
pub open spec fn spec_calc_edge_cost<C: EdgeCost>(
    p: PhysModel,
    from: NodeId,
    to: NodeId,
    acc: Accessability,
    cost: C,
) -> Option<u64> {
    if acc.spec_blocks(to) {
        None
    } else if phys_has_node(p, from) && phys_has_node(p, to) && phys_has_edge_between(
        p,
        from,
        to,
    ) {
        Some(cost.cost_spec(p.edges[phys_first_edge_between(p, from, to)]))
    } else {
        None
    }
}

/// The numeric value of an optional step cost; unusable steps count
/// zero.
pub open spec fn cost_value(oc: Option<u64>) -> int {
    match oc {
        Some(c) => c as int,
        None => 0,
    }
}

/// Saturating addition on the range of `u128`.
pub open spec fn sat_add_u128(a: int, b: int) -> int {
    if a + b > u128::MAX {
        u128::MAX as int
    } else {
        a + b
    }
}

/// Saturating addition of two `u128` values.
fn sat_add(a: u128, b: u128) -> (r: u128)
    ensures
        r as int == sat_add_u128(a as int, b as int),
{
    if a > u128::MAX - b {
        u128::MAX
    } else {
        a + b
    }
}

/// The cost of stepping from topological slot `u` to slot `v`,
/// determined by their node identifiers alone.
pub open spec fn spec_step_cost<C: EdgeCost>(
    p: PhysModel,
    t: TopoModel,
    u: int,
    v: int,
    acc: Accessability,
    cost: C,
) -> Option<u64> {
    spec_calc_edge_cost(p, node_id_at(t, u), node_id_at(t, v), acc, cost)
}

/// Whether `s` is a walk through the topological graph: each
/// consecutive pair of slots is joined by a topological edge whose
/// step cost is usable.
pub open spec fn topo_chain_ok<C: EdgeCost>(
    p: PhysModel,
    t: TopoModel,
    s: Seq<usize>,
    acc: Accessability,
    cost: C,
) -> bool {
    forall|i: int|
        0 <= i < s.len() - 1 ==> {
            &&& topo_has_edge(t, #[trigger] s[i] as int, s[i + 1] as int)
            &&& spec_step_cost(p, t, s[i] as int, s[i + 1] as int, acc, cost) is Some
        }
}

/// The saturating sum of the step costs along the walk `s`.
pub open spec fn topo_chain_cost<C: EdgeCost>(
    p: PhysModel,
    t: TopoModel,
    s: Seq<usize>,
    acc: Accessability,
    cost: C,
) -> int
    decreases s.len(),
{
    if s.len() <= 1 {
        0
    } else {
        sat_add_u128(
            topo_chain_cost(p, t, s.drop_last(), acc, cost),
            cost_value(
                spec_step_cost(p, t, s[s.len() - 2] as int, s[s.len() - 1] as int, acc, cost),
            ),
        )
    }
}

/// The saturating sum of the step costs along the route `ids`, where a
/// step's cost is the cost of travelling between consecutive node
/// identifiers.
pub open spec fn route_cost<C: EdgeCost>(
    p: PhysModel,
    ids: Seq<NodeId>,
    acc: Accessability,
    cost: C,
) -> int
    decreases ids.len(),
{
    if ids.len() <= 1 {
        0
    } else {
        sat_add_u128(
            route_cost(p, ids.drop_last(), acc, cost),
            cost_value(
                spec_calc_edge_cost(p, ids[ids.len() - 2], ids[ids.len() - 1], acc, cost),
            ),
        )
    }
}

/// Whether `x` occurs in `ids`.
fn contains_node_id(ids: &Vec<NodeId>, x: NodeId) -> (r: bool)
    ensures
        r == ids@.contains(x),
{
    let n = ids.len();
    let mut i: usize = 0;
    while i < n
        invariant
            n == ids@.len(),
            i <= n,
            forall|j: int| 0 <= j < i ==> ids@[j] != x,
        decreases n - i,
    {
        if ids[i] == x {
            return true;
        }
        i += 1;
    }
    false
}

/// The per-node invariant of the search's parent forest: a node `v`
/// with a parent was reached over a usable topological edge from a
/// settled node `u`, its recorded distance extends the parent's by
/// that step's cost, and a settled node was settled after its parent.
pub open spec fn dj_edge_inv<C: EdgeCost>(
    p: PhysModel,
    t: TopoModel,
    acc: Accessability,
    cost: C,
    dist: Seq<u128>,
    settled: Seq<bool>,
    parent: Seq<usize>,
    order: Seq<usize>,
    v: int,
) -> bool {
    let u = parent[v] as int;
    &&& 0 <= u < t.nodes.len()
    &&& settled[u]
    &&& topo_has_edge(t, u, v)
    &&& spec_step_cost(p, t, u, v, acc, cost) is Some
    &&& dist[v] as int == sat_add_u128(
        dist[u] as int,
        cost_value(spec_step_cost(p, t, u, v, acc, cost)),
    )
    &&& (settled[v] ==> order[u] < order[v])
}

/// The invariant of the uniform-cost search.
pub open spec fn dj_inv<C: EdgeCost>(
    p: PhysModel,
    t: TopoModel,
    acc: Accessability,
    cost: C,
    start: int,
    dist: Seq<u128>,
    reached: Seq<bool>,
    settled: Seq<bool>,
    parent: Seq<usize>,
    has_parent: Seq<bool>,
    order: Seq<usize>,
    counter: int,
) -> bool {
    let n = t.nodes.len() as int;
    &&& dist.len() == n
    &&& reached.len() == n
    &&& settled.len() == n
    &&& parent.len() == n
    &&& has_parent.len() == n
    &&& order.len() == n
    &&& 0 <= start < n
    &&& reached[start]
    &&& dist[start] == 0
    &&& !has_parent[start]
    &&& forall|v: int| 0 <= v < n && #[trigger] settled[v] ==> reached[v] && order[v] < counter
    &&& forall|v: int| 0 <= v < n && #[trigger] reached[v] && v != start ==> has_parent[v]
    &&& forall|v: int|
        0 <= v < n && #[trigger] has_parent[v] ==> reached[v] && v != start && dj_edge_inv(
            p,
            t,
            acc,
            cost,
            dist,
            settled,
            parent,
            order,
            v,
        )
    &&& (!settled[start] ==> forall|v: int| 0 <= v < n && #[trigger] reached[v] ==> v == start)
}

/// The relaxation closure of the search: every usable topological
/// edge leaving a settled slot has a reached target.
pub open spec fn dj_closure<C: EdgeCost>(
    p: PhysModel,
    t: TopoModel,
    acc: Accessability,
    cost: C,
    reached: Seq<bool>,
    settled: Seq<bool>,
) -> bool {
    forall|e: int|
        0 <= e < t.edges.len() && settled[(#[trigger] t.edges[e]).source as int]
            && spec_step_cost(p, t, t.edges[e].source as int, t.edges[e].target as int, acc, cost)
            is Some ==> reached[t.edges[e].target as int]
}

/// Whether some usable walk of the topological graph leads from slot
/// `start` to slot `goal`.
pub open spec fn topo_reaches<C: EdgeCost>(
    p: PhysModel,
    t: TopoModel,
    start: int,
    goal: int,
    acc: Accessability,
    cost: C,
) -> bool {
    exists|w: Seq<usize>|
        {
            &&& w.len() >= 1
            &&& w[0] as int == start
            &&& w[w.len() - 1] as int == goal
            &&& #[trigger] topo_chain_ok(p, t, w, acc, cost)
        }
}

/// Whether `w` is a walk of the topological graph supporting the
/// route `ids` of a query from `from` to `to`: it starts at a slot of
/// `from`'s dual pair, ends at a slot of `to`'s, visits slots whose
/// node identifiers spell out `ids`, and steps only over usable
/// topological edges.
pub open spec fn is_supporting_walk<C: EdgeCost>(
    p: PhysModel,
    t: TopoModel,
    acc: Accessability,
    cost: C,
    from: NodeId,
    to: NodeId,
    ids: Seq<NodeId>,
    w: Seq<usize>,
) -> bool {
    &&& w.len() == ids.len()
    &&& w.len() >= 1
    &&& (w[0] as int == topo_pair_first(t, from) || w[0] as int == topo_pair_first(t, from) + 1)
    &&& (w[w.len() - 1] as int == topo_pair_first(t, to) || w[w.len() - 1] as int
        == topo_pair_first(t, to) + 1)
    &&& forall|i: int| 0 <= i < w.len() ==> ids[i] == node_id_at(t, #[trigger] w[i] as int)
    &&& topo_chain_ok(p, t, w, acc, cost)
}

/// Whether `c` is a lower bound on the cost of every usable walk of
/// the topological graph from the dual pair of `from` to the dual
/// pair of `to`.
pub open spec fn spec_min_route_cost<C: EdgeCost>(
    p: PhysModel,
    t: TopoModel,
    from: NodeId,
    to: NodeId,
    acc: Accessability,
    cost: C,
    c: int,
) -> bool {
    forall|w: Seq<usize>|
        (w.len() >= 1 && (w[0] as int == topo_pair_first(t, from) || w[0] as int
            == topo_pair_first(t, from) + 1) && (w[w.len() - 1] as int == topo_pair_first(t, to)
            || w[w.len() - 1] as int == topo_pair_first(t, to) + 1) && #[trigger] topo_chain_ok(
            p,
            t,
            w,
            acc,
            cost,
        )) ==> topo_chain_cost(p, t, w, acc, cost) >= c
}

/// Whether no usable walk of the topological graph joins any slot of
/// the dual pair of `from` to any slot of the dual pair of `to`.
pub open spec fn spec_no_route<C: EdgeCost>(
    p: PhysModel,
    t: TopoModel,
    from: NodeId,
    to: NodeId,
    acc: Accessability,
    cost: C,
) -> bool {
    let s0 = topo_pair_first(t, from);
    let g0 = topo_pair_first(t, to);
    &&& !topo_reaches(p, t, s0, g0, acc, cost)
    &&& !topo_reaches(p, t, s0, g0 + 1, acc, cost)
    &&& !topo_reaches(p, t, s0 + 1, g0, acc, cost)
    &&& !topo_reaches(p, t, s0 + 1, g0 + 1, acc, cost)
}

/// Reachability between slots depends on an accessibility constraint
/// only through which nodes it names unreachable.
proof fn lemma_reaches_same_blocks<C: EdgeCost>(
    p: PhysModel,
    t: TopoModel,
    s: int,
    g: int,
    acc1: Accessability,
    acc2: Accessability,
    cost: C,
)
    requires
        forall|id: NodeId| acc1.spec_blocks(id) == acc2.spec_blocks(id),
    ensures
        topo_reaches(p, t, s, g, acc1, cost) == topo_reaches(p, t, s, g, acc2, cost),
{
    if topo_reaches(p, t, s, g, acc1, cost) {
        lemma_reaches_same_blocks_one(p, t, s, g, acc1, acc2, cost);
    }
    if topo_reaches(p, t, s, g, acc2, cost) {
        lemma_reaches_same_blocks_one(p, t, s, g, acc2, acc1, cost);
    }
}

/// One direction of `lemma_reaches_same_blocks`.
proof fn lemma_reaches_same_blocks_one<C: EdgeCost>(
    p: PhysModel,
    t: TopoModel,
    s: int,
    g: int,
    acc1: Accessability,
    acc2: Accessability,
    cost: C,
)
    requires
        forall|id: NodeId| acc1.spec_blocks(id) == acc2.spec_blocks(id),
        topo_reaches(p, t, s, g, acc1, cost),
    ensures
        topo_reaches(p, t, s, g, acc2, cost),
{
    let w = choose|w: Seq<usize>|
        {
            &&& w.len() >= 1
            &&& w[0] as int == s
            &&& w[w.len() - 1] as int == g
            &&& #[trigger] topo_chain_ok(p, t, w, acc1, cost)
        };
    assert forall|i: int| 0 <= i < w.len() - 1 implies {
        &&& topo_has_edge(t, #[trigger] w[i] as int, w[i + 1] as int)
        &&& spec_step_cost(p, t, w[i] as int, w[i + 1] as int, acc2, cost) is Some
    } by {
        assert(spec_step_cost(p, t, w[i] as int, w[i + 1] as int, acc1, cost) is Some);
    }
    assert(topo_chain_ok(p, t, w, acc2, cost));
}

/// The settled slots' recorded distances never exceed any reached,
/// unsettled slot's: slots are settled in non-decreasing distance
/// order.
pub open spec fn dj_frontier(dist: Seq<u128>, reached: Seq<bool>, settled: Seq<bool>) -> bool {
    forall|u: int, v: int|
        0 <= u < settled.len() && 0 <= v < settled.len() && #[trigger] settled[u]
            && #[trigger] reached[v] && !settled[v] ==> dist[u] <= dist[v]
}

/// Every usable edge out of a settled slot has been fully relaxed:
/// the target's recorded distance is at most the source's, extended by
/// the step's cost.
pub open spec fn dj_relaxed<C: EdgeCost>(
    p: PhysModel,
    t: TopoModel,
    acc: Accessability,
    cost: C,
    dist: Seq<u128>,
    settled: Seq<bool>,
) -> bool {
    forall|e: int|
        0 <= e < t.edges.len() && settled[(#[trigger] t.edges[e]).source as int]
            && spec_step_cost(p, t, t.edges[e].source as int, t.edges[e].target as int, acc, cost)
            is Some ==> dist[t.edges[e].target as int] as int <= sat_add_u128(
            dist[t.edges[e].source as int] as int,
            cost_value(
                spec_step_cost(p, t, t.edges[e].source as int, t.edges[e].target as int, acc, cost),
            ),
        )
}

/// The relaxation facts for every usable edge leaving a settled slot
/// other than `best`: the target is reached and its recorded distance
/// is at most the source's, extended by the step's cost.
pub open spec fn dj_others_relaxed<C: EdgeCost>(
    p: PhysModel,
    t: TopoModel,
    acc: Accessability,
    cost: C,
    dist: Seq<u128>,
    reached: Seq<bool>,
    settled: Seq<bool>,
    best: int,
) -> bool {
    forall|e2: int|
        0 <= e2 < t.edges.len() && settled[(#[trigger] t.edges[e2]).source as int]
            && t.edges[e2].source != best && spec_step_cost(
            p,
            t,
            t.edges[e2].source as int,
            t.edges[e2].target as int,
            acc,
            cost,
        ) is Some ==> reached[t.edges[e2].target as int] && dist[t.edges[e2].target as int] as int
            <= sat_add_u128(
            dist[t.edges[e2].source as int] as int,
            cost_value(
                spec_step_cost(
                    p,
                    t,
                    t.edges[e2].source as int,
                    t.edges[e2].target as int,
                    acc,
                    cost,
                ),
            ),
        )
}

/// The relaxation facts for the first `upto` edges, where they leave
/// `best`.
pub open spec fn dj_best_relaxed<C: EdgeCost>(
    p: PhysModel,
    t: TopoModel,
    acc: Accessability,
    cost: C,
    dist: Seq<u128>,
    reached: Seq<bool>,
    best: int,
    upto: int,
) -> bool {
    forall|e2: int|
        0 <= e2 < upto && (#[trigger] t.edges[e2]).source == best && spec_step_cost(
            p,
            t,
            t.edges[e2].source as int,
            t.edges[e2].target as int,
            acc,
            cost,
        ) is Some ==> reached[t.edges[e2].target as int] && dist[t.edges[e2].target as int] as int
            <= sat_add_u128(
            dist[best] as int,
            cost_value(
                spec_step_cost(
                    p,
                    t,
                    t.edges[e2].source as int,
                    t.edges[e2].target as int,
                    acc,
                    cost,
                ),
            ),
        )
}

/// The saturating cost of a walk is never negative.
proof fn lemma_chain_cost_nonneg<C: EdgeCost>(
    p: PhysModel,
    t: TopoModel,
    acc: Accessability,
    cost: C,
    s: Seq<usize>,
)
    ensures
        topo_chain_cost(p, t, s, acc, cost) >= 0,
    decreases s.len(),
{
    if s.len() > 1 {
        lemma_chain_cost_nonneg(p, t, acc, cost, s.drop_last());
    }
}

/// A walk costs at least any of its prefixes.
proof fn lemma_chain_cost_prefix<C: EdgeCost>(
    p: PhysModel,
    t: TopoModel,
    acc: Accessability,
    cost: C,
    w: Seq<usize>,
    k: int,
)
    requires
        1 <= k <= w.len(),
    ensures
        topo_chain_cost(p, t, w.subrange(0, k), acc, cost) <= topo_chain_cost(p, t, w, acc, cost),
    decreases w.len(),
{
    if k == w.len() {
        assert(w.subrange(0, k) =~= w);
    } else {
        let w0 = w.drop_last();
        assert(w.subrange(0, k) =~= w0.subrange(0, k));
        lemma_chain_cost_prefix(p, t, acc, cost, w0, k);
    }
}

/// Against a relaxed search state, every usable walk from the start
/// either ends in a settled slot whose recorded distance is at most
/// the walk's cost, or crosses the frontier: some reached, unsettled
/// slot on the walk has a recorded distance at most the cost of the
/// walk's prefix up to it.
proof fn lemma_walk_frontier_bound<C: EdgeCost>(
    p: PhysModel,
    t: TopoModel,
    acc: Accessability,
    cost: C,
    dist: Seq<u128>,
    reached: Seq<bool>,
    settled: Seq<bool>,
    start: int,
    w: Seq<usize>,
)
    requires
        dist.len() == t.nodes.len(),
        reached.len() == t.nodes.len(),
        settled.len() == t.nodes.len(),
        forall|e: int|
            0 <= e < t.edges.len() ==> {
                &&& (#[trigger] t.edges[e]).source < t.nodes.len()
                &&& t.edges[e].target < t.nodes.len()
            },
        dj_closure(p, t, acc, cost, reached, settled),
        dj_relaxed(p, t, acc, cost, dist, settled),
        0 <= start < t.nodes.len(),
        reached[start],
        dist[start] == 0,
        w.len() >= 1,
        w[0] as int == start,
        topo_chain_ok(p, t, w, acc, cost),
    ensures
        w[w.len() - 1] < t.nodes.len(),
        ({
            ||| (settled[w[w.len() - 1] as int] && dist[w[w.len() - 1] as int] as int
                <= topo_chain_cost(p, t, w, acc, cost))
            ||| exists|k: int|
                0 <= k < w.len() && reached[#[trigger] w[k] as int] && !settled[w[k] as int]
                    && dist[w[k] as int] as int <= topo_chain_cost(
                    p,
                    t,
                    w.subrange(0, k + 1),
                    acc,
                    cost,
                )
        }),
    decreases w.len(),
{
    lemma_chain_cost_nonneg(p, t, acc, cost, w);
    if w.len() == 1 {
        if !settled[start] {
            assert(w.subrange(0, 1) =~= w);
            assert(reached[w[0] as int] && !settled[w[0] as int] && dist[w[0] as int] as int
                <= topo_chain_cost(p, t, w.subrange(0, 1), acc, cost));
        }
    } else {
        let w0 = w.drop_last();
        assert forall|i: int| 0 <= i < w0.len() - 1 implies {
            &&& topo_has_edge(t, #[trigger] w0[i] as int, w0[i + 1] as int)
            &&& spec_step_cost(p, t, w0[i] as int, w0[i + 1] as int, acc, cost) is Some
        } by {
            assert(w0[i] == w[i]);
            assert(w0[i + 1] == w[i + 1]);
        }
        lemma_walk_frontier_bound(p, t, acc, cost, dist, reached, settled, start, w0);
        let y = w[w.len() - 2] as int;
        let x = w[w.len() - 1] as int;
        assert(topo_has_edge(t, y, x));
        let e = choose|e: int|
            0 <= e < t.edges.len() && (#[trigger] t.edges[e]).source == w[w.len() - 2]
                && t.edges[e].target == w[w.len() - 1];
        let c = cost_value(spec_step_cost(p, t, y, x, acc, cost));
        if settled[y] && dist[y] as int <= topo_chain_cost(p, t, w0, acc, cost) {
            assert(reached[x]);
            assert(dist[x] as int <= sat_add_u128(dist[y] as int, c));
            assert(sat_add_u128(dist[y] as int, c) <= sat_add_u128(
                topo_chain_cost(p, t, w0, acc, cost),
                c,
            ));
            assert(topo_chain_cost(p, t, w, acc, cost) == sat_add_u128(
                topo_chain_cost(p, t, w0, acc, cost),
                c,
            ));
            if !settled[x] {
                assert(w.subrange(0, w.len() as int) =~= w);
                assert(reached[w[w.len() - 1] as int] && !settled[w[w.len() - 1] as int]
                    && dist[w[w.len() - 1] as int] as int <= topo_chain_cost(
                    p,
                    t,
                    w.subrange(0, w.len() as int),
                    acc,
                    cost,
                ));
            }
        } else {
            let k = choose|k: int|
                0 <= k < w0.len() && reached[#[trigger] w0[k] as int] && !settled[w0[k] as int]
                    && dist[w0[k] as int] as int <= topo_chain_cost(
                    p,
                    t,
                    w0.subrange(0, k + 1),
                    acc,
                    cost,
                );
            assert(w0.subrange(0, k + 1) =~= w.subrange(0, k + 1));
            assert(reached[w[k] as int] && !settled[w[k] as int] && dist[w[k] as int] as int
                <= topo_chain_cost(p, t, w.subrange(0, k + 1), acc, cost));
        }
    }
}

/// Once the search has settled every reached slot, the relaxation
/// closure pulls every slot at the end of a usable walk from the start

/// into the reached set.
proof fn lemma_walk_reached<C: EdgeCost>(
    p: PhysModel,
    t: TopoModel,
    acc: Accessability,
    cost: C,
    reached: Seq<bool>,
    settled: Seq<bool>,
    w: Seq<usize>,
)
    requires
        reached.len() == t.nodes.len(),
        settled.len() == t.nodes.len(),
        forall|v: int| 0 <= v < reached.len() && #[trigger] reached[v] ==> settled[v],
        dj_closure(p, t, acc, cost, reached, settled),
        forall|e: int|
            0 <= e < t.edges.len() ==> {
                &&& (#[trigger] t.edges[e]).source < t.nodes.len()
                &&& t.edges[e].target < t.nodes.len()
            },
        w.len() >= 1,
        w[0] < t.nodes.len(),
        reached[w[0] as int],
        topo_chain_ok(p, t, w, acc, cost),
    ensures
        w[w.len() - 1] < t.nodes.len(),
        reached[w[w.len() - 1] as int],
    decreases w.len(),
{
    if w.len() > 1 {
        let w0 = w.drop_last();
        assert forall|i: int| 0 <= i < w0.len() - 1 implies {
            &&& topo_has_edge(t, #[trigger] w0[i] as int, w0[i + 1] as int)
            &&& spec_step_cost(p, t, w0[i] as int, w0[i + 1] as int, acc, cost) is Some
        } by {
            assert(w0[i] == w[i]);
            assert(w0[i + 1] == w[i + 1]);
        }
        lemma_walk_reached(p, t, acc, cost, reached, settled, w0);
        assert(topo_has_edge(t, w[w.len() - 2] as int, w[w.len() - 1] as int));
        let e = choose|e: int|
            0 <= e < t.edges.len() && (#[trigger] t.edges[e]).source == w[w.len() - 2]
                && t.edges[e].target == w[w.len() - 1];
        assert(settled[t.edges[e].source as int]);
        assert(reached[t.edges[e].target as int]);
    }
}

/// Walking a chain whose recorded distances start at zero and extend
/// step by step sums, in saturating arithmetic, to the distance
/// recorded at the chain's end.
proof fn lemma_chain_cost_matches_dist<C: EdgeCost>(
    p: PhysModel,
    t: TopoModel,
    acc: Accessability,
    cost: C,
    dist: Seq<u128>,
    s: Seq<usize>,
)
    requires
        s.len() >= 1,
        forall|i: int| 0 <= i < s.len() ==> (#[trigger] s[i]) < dist.len(),
        dist[s[0] as int] == 0,
        forall|i: int|
            0 <= i < s.len() - 1 ==> {
                &&& spec_step_cost(p, t, #[trigger] s[i] as int, s[i + 1] as int, acc, cost)
                    is Some
                &&& dist[s[i + 1] as int] as int == sat_add_u128(
                    dist[s[i] as int] as int,
                    cost_value(spec_step_cost(p, t, s[i] as int, s[i + 1] as int, acc, cost)),
                )
            },
    ensures
        topo_chain_cost(p, t, s, acc, cost) == dist[s[s.len() - 1] as int] as int,
    decreases s.len(),
{
    if s.len() > 1 {
        let s0 = s.drop_last();
        assert forall|i: int| 0 <= i < s0.len() - 1 implies {
            &&& spec_step_cost(p, t, #[trigger] s0[i] as int, s0[i + 1] as int, acc, cost)
                is Some
            &&& dist[s0[i + 1] as int] as int == sat_add_u128(
                dist[s0[i] as int] as int,
                cost_value(spec_step_cost(p, t, s0[i] as int, s0[i + 1] as int, acc, cost)),
            )
        } by {
            assert(s0[i] == s[i]);
            assert(s0[i + 1] == s[i + 1]);
        }
        lemma_chain_cost_matches_dist(p, t, acc, cost, dist, s0);
    }
}

/// A route reading off the node identifiers of a slot walk has the
/// same saturating cost as the walk itself.
proof fn lemma_route_cost_matches_chain<C: EdgeCost>(
    p: PhysModel,
    t: TopoModel,
    acc: Accessability,
    cost: C,
    s: Seq<usize>,
    ids: Seq<NodeId>,
)
    requires
        ids.len() == s.len(),
        forall|i: int| 0 <= i < s.len() ==> ids[i] == node_id_at(t, #[trigger] s[i] as int),
    ensures
        route_cost(p, ids, acc, cost) == topo_chain_cost(p, t, s, acc, cost),
    decreases s.len(),
{
    if s.len() > 1 {
        let s0 = s.drop_last();
        let ids0 = ids.drop_last();
        assert forall|i: int|
            0 <= i < s0.len() implies ids0[i] == node_id_at(t, #[trigger] s0[i] as int) by {
            assert(s0[i] == s[i]);
            assert(ids0[i] == ids[i]);
        }
        lemma_route_cost_matches_chain(p, t, acc, cost, s0, ids0);
        assert(spec_calc_edge_cost(p, ids[ids.len() - 2], ids[ids.len() - 1], acc, cost)
            == spec_step_cost(p, t, s[s.len() - 2] as int, s[s.len() - 1] as int, acc, cost));
    }
}

/// The number of `true` entries of `s`.
pub open spec fn count_true(s: Seq<bool>) -> int
    decreases s.len(),
{
    if s.len() == 0 {
        0
    } else {
        count_true(s.drop_last()) + if s.last() {
            1int
        } else {
            0int
        }
    }
}

/// The count of `true` entries never exceeds the length.
proof fn lemma_count_true_le_len(s: Seq<bool>)
    ensures
        0 <= count_true(s) <= s.len(),
    decreases s.len(),
{
    if s.len() > 0 {
        lemma_count_true_le_len(s.drop_last());
    }
}

/// Setting a `false` entry to `true` raises the count by one.
proof fn lemma_count_true_update(s: Seq<bool>, i: int)
    requires
        0 <= i < s.len(),
        !s[i],
    ensures
        count_true(s.update(i, true)) == count_true(s) + 1,
    decreases s.len(),
{
    let s1 = s.update(i, true);
    if i == s.len() - 1 {
        assert(s1.drop_last() =~= s.drop_last());
    } else {
        assert(s1.drop_last() =~= s.drop_last().update(i, true));
        lemma_count_true_update(s.drop_last(), i);
    }
}

/// A sequence with a `false` entry has fewer `true` entries than its
/// length.
proof fn lemma_count_true_lt_len(s: Seq<bool>, i: int)
    requires
        0 <= i < s.len(),
        !s[i],
    ensures
        count_true(s) < s.len(),
    decreases s.len(),
{
    if i == s.len() - 1 {
        lemma_count_true_le_len(s.drop_last());
    } else {
        lemma_count_true_lt_len(s.drop_last(), i);
    }
}

/// Reversing a backwards walk of the parent forest yields a forward
/// walk whose saturating cost is the distance recorded at its end.
proof fn lemma_forward_of_reverse<C: EdgeCost>(
    p: PhysModel,
    t: TopoModel,
    acc: Accessability,
    cost: C,
    dist: Seq<u128>,
    rv: Seq<usize>,
    sl: Seq<usize>,
)
    requires
        rv.len() >= 1,
        sl.len() == rv.len(),
        forall|i: int| 0 <= i < sl.len() ==> (#[trigger] sl[i]) == rv[rv.len() - 1 - i],
        forall|i: int| 0 <= i < rv.len() ==> (#[trigger] rv[i]) < dist.len(),
        dist[rv[rv.len() - 1] as int] == 0,
        forall|i: int|
            0 <= i < rv.len() - 1 ==> {
                &&& topo_has_edge(t, rv[i + 1] as int, #[trigger] rv[i] as int)
                &&& spec_step_cost(p, t, rv[i + 1] as int, rv[i] as int, acc, cost) is Some
                &&& dist[rv[i] as int] as int == sat_add_u128(
                    dist[rv[i + 1] as int] as int,
                    cost_value(spec_step_cost(p, t, rv[i + 1] as int, rv[i] as int, acc, cost)),
                )
            },
    ensures
        sl[0] == rv[rv.len() - 1],
        sl[sl.len() - 1] == rv[0],
        topo_chain_ok(p, t, sl, acc, cost),
        topo_chain_cost(p, t, sl, acc, cost) == dist[rv[0] as int] as int,
{
    let ln = rv.len() as int;
    assert forall|i: int| 0 <= i < sl.len() - 1 implies {
        &&& topo_has_edge(t, #[trigger] sl[i] as int, sl[i + 1] as int)
        &&& spec_step_cost(p, t, sl[i] as int, sl[i + 1] as int, acc, cost) is Some
        &&& dist[sl[i + 1] as int] as int == sat_add_u128(
            dist[sl[i] as int] as int,
            cost_value(spec_step_cost(p, t, sl[i] as int, sl[i + 1] as int, acc, cost)),
        )
    } by {
        let j = ln - 2 - i;
        assert(sl[i] == rv[ln - 1 - i]);
        assert(sl[i + 1] == rv[ln - 2 - i]);
        assert(topo_has_edge(t, rv[j + 1] as int, rv[j] as int));
    }
    assert(dist[sl[0] as int] == 0);
    lemma_chain_cost_matches_dist(p, t, acc, cost, dist, sl);
    assert(sl[sl.len() - 1] == rv[0]);
}

/// Settling a reached, unsettled slot and stamping it with the current
/// counter preserves the search invariant with the counter advanced.
proof fn lemma_settle_dj_inv<C: EdgeCost>(
    p: PhysModel,
    t: TopoModel,
    acc: Accessability,
    cost: C,
    start: int,
    dist: Seq<u128>,
    reached: Seq<bool>,
    settled0: Seq<bool>,
    parent: Seq<usize>,
    has_parent: Seq<bool>,
    order0: Seq<usize>,
    counter0: usize,
    best: int,
)
    requires
        dj_inv(
            p,
            t,
            acc,
            cost,
            start,
            dist,
            reached,
            settled0,
            parent,
            has_parent,
            order0,
            counter0 as int,
        ),
        0 <= best < t.nodes.len(),
        reached[best],
        !settled0[best],
    ensures
        dj_inv(
            p,
            t,
            acc,
            cost,
            start,
            dist,
            reached,
            settled0.update(best, true),
            parent,
            has_parent,
            order0.update(best, counter0),
            counter0 as int + 1,
        ),
{
    let n = t.nodes.len() as int;
    let settled1 = settled0.update(best, true);
    let order1 = order0.update(best, counter0);
    assert forall|v: int|
        0 <= v < n && #[trigger] has_parent[v] implies reached[v] && v != start && dj_edge_inv(
        p,
        t,
        acc,
        cost,
        dist,
        settled1,
        parent,
        order1,
        v,
    ) by {
        assert(dj_edge_inv(p, t, acc, cost, dist, settled0, parent, order0, v));
        let u = parent[v] as int;
        if v != best {
            assert(order1[v] == order0[v]);
        }
        if u != best {
            assert(order1[u] == order0[u]);
        }
    }
}

/// Relaxing one usable edge from a settled slot to an unsettled one
/// preserves the search invariant, the frontier ordering, and the
/// relaxation bounds of previously settled slots.
#[verifier::rlimit(100)]
proof fn lemma_relax_dj_inv<C: EdgeCost>(
    p: PhysModel,
    t: TopoModel,
    acc: Accessability,
    cost: C,
    start: int,
    dist0: Seq<u128>,
    reached0: Seq<bool>,
    settled: Seq<bool>,
    parent0: Seq<usize>,
    has_parent0: Seq<bool>,
    order: Seq<usize>,
    counter: int,
    best: int,
    tgt: int,
    nd: u128,
)
    requires
        dj_inv(p, t, acc, cost, start, dist0, reached0, settled, parent0, has_parent0, order, counter),
        forall|e: int|
            0 <= e < t.edges.len() ==> {
                &&& (#[trigger] t.edges[e]).source < t.nodes.len()
                &&& t.edges[e].target < t.nodes.len()
            },
        0 <= best < t.nodes.len(),
        0 <= tgt < t.nodes.len(),
        settled[best],
        !settled[tgt],
        topo_has_edge(t, best, tgt),
        spec_step_cost(p, t, best, tgt, acc, cost) is Some,
        nd as int == sat_add_u128(
            dist0[best] as int,
            cost_value(spec_step_cost(p, t, best, tgt, acc, cost)),
        ),
        !reached0[tgt] || nd < dist0[tgt],
        dj_frontier(dist0, reached0, settled),
        forall|u: int|
            0 <= u < t.nodes.len() && #[trigger] settled[u] ==> dist0[u] <= dist0[best],
        dj_others_relaxed(p, t, acc, cost, dist0, reached0, settled, best),
    ensures
        dj_inv(
            p,
            t,
            acc,
            cost,
            start,
            dist0.update(tgt, nd),
            reached0.update(tgt, true),
            settled,
            parent0.update(tgt, best as usize),
            has_parent0.update(tgt, true),
            order,
            counter,
        ),
        dj_frontier(dist0.update(tgt, nd), reached0.update(tgt, true), settled),
        forall|u: int|
            0 <= u < t.nodes.len() && #[trigger] settled[u] ==> dist0.update(tgt, nd)[u]
                <= dist0.update(tgt, nd)[best],
        dj_others_relaxed(
            p,
            t,
            acc,
            cost,
            dist0.update(tgt, nd),
            reached0.update(tgt, true),
            settled,
            best,
        ),
{
    let n = t.nodes.len() as int;
    let dist1 = dist0.update(tgt, nd);
    let reached1 = reached0.update(tgt, true);
    let parent1 = parent0.update(tgt, best as usize);
    let has_parent1 = has_parent0.update(tgt, true);
    assert(settled[start]) by {
        if !settled[start] {
            assert(reached0[best]);
        }
    }
    assert(tgt != start);
    assert forall|v: int|
        0 <= v < n && #[trigger] has_parent1[v] implies reached1[v] && v != start && dj_edge_inv(
        p,
        t,
        acc,
        cost,
        dist1,
        settled,
        parent1,
        order,
        v,
    ) by {
        if v != tgt {
            assert(has_parent0[v]);
            assert(dj_edge_inv(p, t, acc, cost, dist0, settled, parent0, order, v));
            let u = parent0[v] as int;
            assert(u != tgt);
            assert(dist1[u] == dist0[u]);
            assert(dist1[v] == dist0[v]);
        }
    }
    assert forall|u: int, v: int|
        0 <= u < settled.len() && 0 <= v < settled.len() && #[trigger] settled[u]
            && #[trigger] reached1[v] && !settled[v] implies dist1[u] <= dist1[v] by {
        assert(u != tgt);
        assert(dist1[u] == dist0[u]);
        if v == tgt {
            assert(dist0[u] <= dist0[best]);
            assert(dist0[best] as int <= nd as int);
        } else {
            assert(reached0[v]);
        }
    }
    assert forall|e2: int|
        0 <= e2 < t.edges.len() && settled[(#[trigger] t.edges[e2]).source as int]
            && t.edges[e2].source != best && spec_step_cost(
            p,
            t,
            t.edges[e2].source as int,
            t.edges[e2].target as int,
            acc,
            cost,
        ) is Some implies reached1[t.edges[e2].target as int] && dist1[t.edges[e2].target as int]
        as int <= sat_add_u128(
        dist1[t.edges[e2].source as int] as int,
        cost_value(
            spec_step_cost(p, t, t.edges[e2].source as int, t.edges[e2].target as int, acc, cost),
        ),
    ) by {
        let s2 = t.edges[e2].source as int;
        let t2 = t.edges[e2].target as int;
        assert(reached0[t2]);
        assert(s2 != tgt);
        assert(dist1[s2] == dist0[s2]);
        if t2 == tgt {
            assert(reached0[tgt]);
            assert(nd < dist0[tgt]);
        }
    }
}

/// Combining the relaxation facts for edges leaving previously
/// settled slots with full relaxation of the edges leaving `best`
/// yields the relaxation closure and bounds of the extended settled
/// set.
proof fn lemma_closure_after_round<C: EdgeCost>(
    p: PhysModel,
    t: TopoModel,
    acc: Accessability,
    cost: C,
    dist: Seq<u128>,
    reached: Seq<bool>,
    settled: Seq<bool>,
    best: int,
)
    requires
        dj_others_relaxed(p, t, acc, cost, dist, reached, settled, best),
        dj_best_relaxed(p, t, acc, cost, dist, reached, best, t.edges.len() as int),
    ensures
        dj_closure(p, t, acc, cost, reached, settled),
        dj_relaxed(p, t, acc, cost, dist, settled),
{
    assert forall|e2: int|
        0 <= e2 < t.edges.len() && settled[(#[trigger] t.edges[e2]).source as int]
            && spec_step_cost(
            p,
            t,
            t.edges[e2].source as int,
            t.edges[e2].target as int,
            acc,
            cost,
        ) is Some implies reached[t.edges[e2].target as int] && dist[t.edges[e2].target as int]
        as int <= sat_add_u128(
        dist[t.edges[e2].source as int] as int,
        cost_value(
            spec_step_cost(p, t, t.edges[e2].source as int, t.edges[e2].target as int, acc, cost),
        ),
    ) by {
        if t.edges[e2].source == best {
        }
    }
}

/// After relaxing the edge at index `e` from `best` to `tgt`, the
/// relaxation bounds of the edges up to and including `e` that leave
/// `best` hold of the updated state.
proof fn lemma_relax_keeps_best_bounds<C: EdgeCost>(
    p: PhysModel,
    t: TopoModel,
    acc: Accessability,
    cost: C,
    dist0: Seq<u128>,
    reached0: Seq<bool>,
    best: int,
    tgt: int,
    nd: u128,
    e: int,
)
    requires
        forall|e2: int|
            0 <= e2 < t.edges.len() ==> {
                &&& (#[trigger] t.edges[e2]).source < t.nodes.len()
                &&& t.edges[e2].target < t.nodes.len()
            },
        dist0.len() == t.nodes.len(),
        reached0.len() == t.nodes.len(),
        0 <= best < t.nodes.len(),
        0 <= tgt < t.nodes.len(),
        best != tgt,
        0 <= e < t.edges.len(),
        t.edges[e].source == best,
        t.edges[e].target == tgt,
        spec_step_cost(p, t, best, tgt, acc, cost) is Some,
        nd as int == sat_add_u128(
            dist0[best] as int,
            cost_value(spec_step_cost(p, t, best, tgt, acc, cost)),
        ),
        !reached0[tgt] || nd < dist0[tgt],
        dj_best_relaxed(p, t, acc, cost, dist0, reached0, best, e),
    ensures
        dj_best_relaxed(
            p,
            t,
            acc,
            cost,
            dist0.update(tgt, nd),
            reached0.update(tgt, true),
            best,
            e + 1,
        ),
{
    let dist1 = dist0.update(tgt, nd);
    let reached1 = reached0.update(tgt, true);
    assert forall|e2: int|
        0 <= e2 < e + 1 && (#[trigger] t.edges[e2]).source == best && spec_step_cost(
            p,
            t,
            t.edges[e2].source as int,
            t.edges[e2].target as int,
            acc,
            cost,
        ) is Some implies reached1[t.edges[e2].target as int] && dist1[t.edges[e2].target as int]
        as int <= sat_add_u128(
        dist1[best] as int,
        cost_value(
            spec_step_cost(p, t, t.edges[e2].source as int, t.edges[e2].target as int, acc, cost),
        ),
    ) by {
        let t2 = t.edges[e2].target as int;
        assert(dist1[best] == dist0[best]);
        if e2 < e {
            assert(reached0[t2]);
            if t2 == tgt {
                assert(nd < dist0[tgt]);
            } else {
                assert(dist1[t2] == dist0[t2]);
            }
        } else {
            assert(t2 == tgt);
        }
    }
}

/// The cheaper answer of the two goal-directed searches — one from
/// each slot of the start's dual pair — bounds from below the cost of
/// every usable walk from either start slot to either goal slot: a
/// search that answered bounds its own walks, and a search that found
/// nothing has no walks at all.
proof fn lemma_combine_optimal<C: EdgeCost>(
    p: PhysModel,
    t: TopoModel,
    acc: Accessability,
    cost: C,
    s0: usize,
    s1: usize,
    g0: usize,
    g1: usize,
    c0: Option<u128>,
    c1: Option<u128>,
    c: u128,
)
    requires
        c0 is Some ==> forall|w: Seq<usize>|
            (w.len() >= 1 && w[0] == s0 && (w[w.len() - 1] == g0 || w[w.len() - 1] == g1)
                && #[trigger] topo_chain_ok(p, t, w, acc, cost)) ==> topo_chain_cost(
                p,
                t,
                w,
                acc,
                cost,
            ) >= c0.unwrap() as int,
        c0 is None ==> !topo_reaches(p, t, s0 as int, g0 as int, acc, cost) && !topo_reaches(
            p,
            t,
            s0 as int,
            g1 as int,
            acc,
            cost,
        ),
        c1 is Some ==> forall|w: Seq<usize>|
            (w.len() >= 1 && w[0] == s1 && (w[w.len() - 1] == g0 || w[w.len() - 1] == g1)
                && #[trigger] topo_chain_ok(p, t, w, acc, cost)) ==> topo_chain_cost(
                p,
                t,
                w,
                acc,
                cost,
            ) >= c1.unwrap() as int,
        c1 is None ==> !topo_reaches(p, t, s1 as int, g0 as int, acc, cost) && !topo_reaches(
            p,
            t,
            s1 as int,
            g1 as int,
            acc,
            cost,
        ),
        c0 is Some ==> c <= c0.unwrap(),
        c1 is Some ==> c <= c1.unwrap(),
    ensures
        forall|w: Seq<usize>|
            (w.len() >= 1 && (w[0] == s0 || w[0] == s1) && (w[w.len() - 1] == g0 || w[w.len() - 1]
                == g1) && #[trigger] topo_chain_ok(p, t, w, acc, cost)) ==> topo_chain_cost(
                p,
                t,
                w,
                acc,
                cost,
            ) >= c as int,
{
    assert forall|w: Seq<usize>|
        (w.len() >= 1 && (w[0] == s0 || w[0] == s1) && (w[w.len() - 1] == g0 || w[w.len() - 1]
            == g1) && #[trigger] topo_chain_ok(p, t, w, acc, cost)) implies topo_chain_cost(
        p,
        t,
        w,
        acc,
        cost,
    ) >= c as int by {
        if w[0] == s0 {
            if c0 is None {
                assert(w[0] as int == s0 as int && (w[w.len() - 1] as int == g0 as int || w[w.len()
                    - 1] as int == g1 as int));
                assert(false);
            }
        } else {
            if c1 is None {
                assert(w[0] as int == s1 as int && (w[w.len() - 1] as int == g0 as int || w[w.len()
                    - 1] as int == g1 as int));
                assert(false);
            }
        }
    }
}

/// Once every reached slot is settled, the recorded distance of the
/// chosen goal slot — the cheaper of the two reached goal slots — is a
/// lower bound on the cost of every usable walk from the start to
/// either goal slot.
proof fn lemma_search_optimal<C: EdgeCost>(
    p: PhysModel,
    t: TopoModel,
    acc: Accessability,
    cost: C,
    dist: Seq<u128>,
    reached: Seq<bool>,
    settled: Seq<bool>,
    start: usize,
    goal0: usize,
    goal1: usize,
    goal: usize,
    total: u128,
)
    requires
        dist.len() == t.nodes.len(),
        reached.len() == t.nodes.len(),
        settled.len() == t.nodes.len(),
        forall|e: int|
            0 <= e < t.edges.len() ==> {
                &&& (#[trigger] t.edges[e]).source < t.nodes.len()
                &&& t.edges[e].target < t.nodes.len()
            },
        dj_closure(p, t, acc, cost, reached, settled),
        dj_relaxed(p, t, acc, cost, dist, settled),
        forall|v: int| 0 <= v < t.nodes.len() && #[trigger] reached[v] ==> settled[v],
        forall|v: int| 0 <= v < t.nodes.len() && #[trigger] settled[v] ==> reached[v],
        start < t.nodes.len(),
        reached[start as int],
        dist[start as int] == 0,
        goal0 < t.nodes.len(),
        goal1 < t.nodes.len(),
        goal < t.nodes.len(),
        total == dist[goal as int],
        reached[goal0 as int] ==> dist[goal as int] <= dist[goal0 as int],
        reached[goal1 as int] ==> dist[goal as int] <= dist[goal1 as int],
    ensures
        forall|w: Seq<usize>|
            (w.len() >= 1 && w[0] == start && (w[w.len() - 1] == goal0 || w[w.len() - 1] == goal1)
                && #[trigger] topo_chain_ok(p, t, w, acc, cost)) ==> topo_chain_cost(
                p,
                t,
                w,
                acc,
                cost,
            ) >= total as int,
{
    assert forall|w: Seq<usize>|
        (w.len() >= 1 && w[0] == start && (w[w.len() - 1] == goal0 || w[w.len() - 1] == goal1)
            && #[trigger] topo_chain_ok(p, t, w, acc, cost)) implies topo_chain_cost(
        p,
        t,
        w,
        acc,
        cost,
    ) >= total as int by {
        lemma_walk_frontier_bound(p, t, acc, cost, dist, reached, settled, start as int, w);
        let g = w[w.len() - 1] as int;
        if settled[g] && dist[g] as int <= topo_chain_cost(p, t, w, acc, cost) {
            assert(reached[g]);
            assert(dist[goal as int] <= dist[g]);
        } else {
            let k = choose|k: int|
                0 <= k < w.len() && reached[#[trigger] w[k] as int] && !settled[w[k] as int]
                    && dist[w[k] as int] as int <= topo_chain_cost(
                    p,
                    t,
                    w.subrange(0, k + 1),
                    acc,
                    cost,
                );
            assert(settled[w[k] as int]);
            assert(false);
        }
    }
}

/// Settling `best` — the reached, unsettled slot of least recorded
/// distance — keeps the frontier ordering, bounds every settled
/// distance by `best`'s, and turns the settled set's relaxation facts
/// into the form the relaxation round starts from.
proof fn lemma_settle_frontier<C: EdgeCost>(
    p: PhysModel,
    t: TopoModel,
    acc: Accessability,
    cost: C,
    dist: Seq<u128>,
    reached: Seq<bool>,
    settled0: Seq<bool>,
    best: int,
)
    requires
        forall|e: int|
            0 <= e < t.edges.len() ==> {
                &&& (#[trigger] t.edges[e]).source < t.nodes.len()
                &&& t.edges[e].target < t.nodes.len()
            },
        dist.len() == t.nodes.len(),
        reached.len() == t.nodes.len(),
        settled0.len() == t.nodes.len(),
        0 <= best < t.nodes.len(),
        reached[best],
        !settled0[best],
        dj_frontier(dist, reached, settled0),
        dj_closure(p, t, acc, cost, reached, settled0),
        dj_relaxed(p, t, acc, cost, dist, settled0),
        forall|v: int|
            0 <= v < t.nodes.len() && #[trigger] reached[v] && !settled0[v] ==> dist[best]
                <= dist[v],
    ensures
        dj_frontier(dist, reached, settled0.update(best, true)),
        forall|u: int|
            0 <= u < t.nodes.len() && #[trigger] settled0.update(best, true)[u] ==> dist[u]
                <= dist[best],
        dj_others_relaxed(p, t, acc, cost, dist, reached, settled0.update(best, true), best),
{
    let settled1 = settled0.update(best, true);
    assert forall|u: int, v: int|
        0 <= u < settled1.len() && 0 <= v < settled1.len() && #[trigger] settled1[u]
            && #[trigger] reached[v] && !settled1[v] implies dist[u] <= dist[v] by {
        if u != best {
            assert(settled0[u]);
        }
        assert(!settled0[v]);
    }
    assert forall|u: int|
        0 <= u < t.nodes.len() && #[trigger] settled1[u] implies dist[u] <= dist[best] by {
        if u != best {
            assert(settled0[u]);
            assert(reached[best] && !settled0[best]);
        }
    }
    assert forall|e2: int|
        0 <= e2 < t.edges.len() && settled1[(#[trigger] t.edges[e2]).source as int]
            && t.edges[e2].source != best && spec_step_cost(
            p,
            t,
            t.edges[e2].source as int,
            t.edges[e2].target as int,
            acc,
            cost,
        ) is Some implies reached[t.edges[e2].target as int] && dist[t.edges[e2].target as int]
        as int <= sat_add_u128(
        dist[t.edges[e2].source as int] as int,
        cost_value(
            spec_step_cost(p, t, t.edges[e2].source as int, t.edges[e2].target as int, acc, cost),
        ),
    ) by {
        assert(settled0[t.edges[e2].source as int]);
    }
}

impl TransitNetwork {

    /// Relaxes every usable edge leaving the freshly settled slot
    /// `best`, re-establishing the relaxation closure for the whole
    /// settled set.
    #[verifier::spinoff_prover]
    #[verifier::rlimit(100)]
    fn relax_all<C: EdgeCost>(
        &self,
        start: usize,
        best: usize,
        dist: &mut Vec<u128>,
        reached: &mut Vec<bool>,
        settled: &Vec<bool>,
        parent: &mut Vec<usize>,
        has_parent: &mut Vec<bool>,
        order: &Vec<usize>,
        counter: usize,
        accessability: &Accessability,
        edge_cost: &C,
    )
        requires
            forall|e: int|
                0 <= e < self.topology_graph@.edges.len() ==> {
                    &&& (#[trigger] self.topology_graph@.edges[e]).source
                        < self.topology_graph@.nodes.len()
                    &&& self.topology_graph@.edges[e].target < self.topology_graph@.nodes.len()
                },
            dj_inv(
                self.physical_graph@,
                self.topology_graph@,
                *accessability,
                *edge_cost,
                start as int,
                old(dist)@,
                old(reached)@,
                settled@,
                old(parent)@,
                old(has_parent)@,
                order@,
                counter as int,
            ),
            best < self.topology_graph@.nodes.len(),
            settled@[best as int],
            dj_others_relaxed(
                self.physical_graph@,
                self.topology_graph@,
                *accessability,
                *edge_cost,
                old(dist)@,
                old(reached)@,
                settled@,
                best as int,
            ),
            dj_frontier(old(dist)@, old(reached)@, settled@),
            forall|u: int|
                0 <= u < self.topology_graph@.nodes.len() && #[trigger] settled@[u]
                    ==> old(dist)@[u] <= old(dist)@[best as int],
        ensures
            dj_inv(
                self.physical_graph@,
                self.topology_graph@,
                *accessability,
                *edge_cost,
                start as int,
                final(dist)@,
                final(reached)@,
                settled@,
                final(parent)@,
                final(has_parent)@,
                order@,
                counter as int,
            ),
            dj_closure(
                self.physical_graph@,
                self.topology_graph@,
                *accessability,
                *edge_cost,
                final(reached)@,
                settled@,
            ),
            dj_relaxed(
                self.physical_graph@,
                self.topology_graph@,
                *accessability,
                *edge_cost,
                final(dist)@,
                settled@,
            ),
            dj_frontier(final(dist)@, final(reached)@, settled@),
    {
        let ghost p = self.physical_graph@;
        let ghost t = self.topology_graph@;
        let n = self.topology_graph.node_count();
        // relax every edge leaving the settled slot
        let m = self.topology_graph.edge_count();
        let mut e: usize = 0;
        while e < m
            invariant
                p == self.physical_graph@,
                t == self.topology_graph@,
                n == t.nodes.len(),
                m == t.edges.len(),
                forall|e3: int|
                    0 <= e3 < t.edges.len() ==> {
                        &&& (#[trigger] t.edges[e3]).source < t.nodes.len()
                        &&& t.edges[e3].target < t.nodes.len()
                    },
                e <= m,
                dist@.len() == n,
                reached@.len() == n,
                parent@.len() == n,
                has_parent@.len() == n,
                best < n,
                settled@[best as int],
                dj_others_relaxed(
                    p,
                    t,
                    *accessability,
                    *edge_cost,
                    dist@,
                    reached@,
                    settled@,
                    best as int,
                ),
                dj_best_relaxed(
                    p,
                    t,
                    *accessability,
                    *edge_cost,
                    dist@,
                    reached@,
                    best as int,
                    e as int,
                ),
                dj_frontier(dist@, reached@, settled@),
                forall|u: int|
                    0 <= u < n && #[trigger] settled@[u] ==> dist@[u] <= dist@[best as int],
                dj_inv(
                    p,
                    t,
                    *accessability,
                    *edge_cost,
                    start as int,
                    dist@,
                    reached@,
                    settled@,
                    parent@,
                    has_parent@,
                    order@,
                    counter as int,
                ),
            decreases m - e,
        {
            let te = *self.topology_graph.edge_weight(e).unwrap();
            if te.source == best {
                let tgt = te.target;
                proof {
                    assert(t.edges[e as int].target < t.nodes.len());
                }
                if !settled[tgt] {
                    proof {
                        assert(settled@[start as int]);
                    }
                    let from_id = self.topology_graph.index_to_id(best).unwrap();
                    let to_id = self.topology_graph.index_to_id(tgt).unwrap();
                    if let Some(w) = self.calc_edge_cost(
                        from_id,
                        to_id,
                        accessability,
                        edge_cost,
                    ) {
                        let nd = sat_add(dist[best], w as u128);
                        if !reached[tgt] || nd < dist[tgt] {
                            let ghost dist0 = dist@;
                            let ghost reached0 = reached@;
                            proof {
                                assert(topo_has_edge(t, best as int, tgt as int));
                                lemma_relax_dj_inv(
                                    p,
                                    t,
                                    *accessability,
                                    *edge_cost,
                                    start as int,
                                    dist@,
                                    reached@,
                                    settled@,
                                    parent@,
                                    has_parent@,
                                    order@,
                                    counter as int,
                                    best as int,
                                    tgt as int,
                                    nd,
                                );
                            }
                            dist[tgt] = nd;
                            reached[tgt] = true;
                            parent[tgt] = best;
                            has_parent[tgt] = true;
                            proof {
                                lemma_relax_keeps_best_bounds(
                                    p,
                                    t,
                                    *accessability,
                                    *edge_cost,
                                    dist0,
                                    reached0,
                                    best as int,
                                    tgt as int,
                                    nd,
                                    e as int,
                                );
                            }
                        } else {
                            proof {
                                assert(reached@[tgt as int] && dist@[tgt as int] <= nd);
                            }
                        }
                    }
                } else {
                    proof {
                        if spec_step_cost(
                            p,
                            t,
                            best as int,
                            tgt as int,
                            *accessability,
                            *edge_cost,
                        ) is Some {
                            assert(reached@[tgt as int]);
                            assert(dist@[tgt as int] <= dist@[best as int]);
                            assert(dist@[tgt as int] as int <= sat_add_u128(
                                dist@[best as int] as int,
                                cost_value(
                                    spec_step_cost(
                                        p,
                                        t,
                                        best as int,
                                        tgt as int,
                                        *accessability,
                                        *edge_cost,
                                    ),
                                ),
                            ));
                        }
                    }
                }
            }
            e += 1;
        }
        proof {
            lemma_closure_after_round(
                p,
                t,
                *accessability,
                *edge_cost,
                dist@,
                reached@,
                settled@,
                best as int,
            );
        }
    }

    /// One round of the search: settles `best`, stamps its settling
    /// order, and relaxes every usable edge leaving it.
    #[verifier::rlimit(100)]
    fn settle_round<C: EdgeCost>(
        &self,
        start: usize,
        best: usize,
        dist: &mut Vec<u128>,
        reached: &mut Vec<bool>,
        settled: &mut Vec<bool>,
        parent: &mut Vec<usize>,
        has_parent: &mut Vec<bool>,
        order: &mut Vec<usize>,
        counter: &mut usize,
        accessability: &Accessability,
        edge_cost: &C,
    )
        requires
            forall|e: int|
                0 <= e < self.topology_graph@.edges.len() ==> {
                    &&& (#[trigger] self.topology_graph@.edges[e]).source
                        < self.topology_graph@.nodes.len()
                    &&& self.topology_graph@.edges[e].target < self.topology_graph@.nodes.len()
                },
            dj_inv(
                self.physical_graph@,
                self.topology_graph@,
                *accessability,
                *edge_cost,
                start as int,
                old(dist)@,
                old(reached)@,
                old(settled)@,
                old(parent)@,
                old(has_parent)@,
                old(order)@,
                *old(counter) as int,
            ),
            *old(counter) as int == count_true(old(settled)@),
            *old(counter) <= self.topology_graph@.nodes.len(),
            dj_closure(
                self.physical_graph@,
                self.topology_graph@,
                *accessability,
                *edge_cost,
                old(reached)@,
                old(settled)@,
            ),
            best < self.topology_graph@.nodes.len(),
            old(reached)@[best as int],
            !old(settled)@[best as int],
            dj_frontier(old(dist)@, old(reached)@, old(settled)@),
            dj_relaxed(
                self.physical_graph@,
                self.topology_graph@,
                *accessability,
                *edge_cost,
                old(dist)@,
                old(settled)@,
            ),
            forall|v: int|
                0 <= v < self.topology_graph@.nodes.len() && #[trigger] old(reached)@[v] && !old(
                    settled,
                )@[v] ==> old(dist)@[best as int] <= old(dist)@[v],
        ensures
            dj_inv(
                self.physical_graph@,
                self.topology_graph@,
                *accessability,
                *edge_cost,
                start as int,
                final(dist)@,
                final(reached)@,
                final(settled)@,
                final(parent)@,
                final(has_parent)@,
                final(order)@,
                *final(counter) as int,
            ),
            *final(counter) == *old(counter) + 1,
            *final(counter) as int == count_true(final(settled)@),
            *final(counter) <= self.topology_graph@.nodes.len(),
            dj_closure(
                self.physical_graph@,
                self.topology_graph@,
                *accessability,
                *edge_cost,
                final(reached)@,
                final(settled)@,
            ),
            dj_relaxed(
                self.physical_graph@,
                self.topology_graph@,
                *accessability,
                *edge_cost,
                final(dist)@,
                final(settled)@,
            ),
            dj_frontier(final(dist)@, final(reached)@, final(settled)@),
    {
        let ghost p = self.physical_graph@;
        let ghost t = self.topology_graph@;
        // the node count bounds the settle counter
        let _n = self.topology_graph.node_count();
        proof {
            lemma_count_true_lt_len(settled@, best as int);
            lemma_count_true_update(settled@, best as int);
            lemma_settle_dj_inv(
                p,
                t,
                *accessability,
                *edge_cost,
                start as int,
                dist@,
                reached@,
                settled@,
                parent@,
                has_parent@,
                order@,
                *counter,
                best as int,
            );
        }
        let ghost settled0 = settled@;
        settled[best] = true;
        order[best] = *counter;
        *counter += 1;
        proof {
            lemma_count_true_le_len(settled@);
            lemma_settle_frontier(
                p,
                t,
                *accessability,
                *edge_cost,
                dist@,
                reached@,
                settled0,
                best as int,
            );
        }
        self.relax_all(
            start,
            best,
            dist,
            reached,
            settled,
            parent,
            has_parent,
            order,
            *counter,
            accessability,
            edge_cost,
        );
    }

    /// Uniform-cost search over the topological graph from the slot
    /// `start`, stopping at whichever of `goal0` and `goal1` is
    /// settled more cheaply.  Every result is a genuine walk: it
    /// starts at `start`, ends at a goal slot, follows topological
    /// edges whose step costs are usable, and its cost is the
    /// saturating sum of those step costs.
    #[verifier::loop_isolation(false)]
    #[verifier::rlimit(100)]
    fn dijkstra<C: EdgeCost>(
        &self,
        start: usize,
        goal0: usize,
        goal1: usize,
        accessability: &Accessability,
        edge_cost: &C,
    ) -> (r: Option<(u128, Vec<usize>)>)
        requires
            forall|e: int|
                0 <= e < self.topology_graph@.edges.len() ==> {
                    &&& (#[trigger] self.topology_graph@.edges[e]).source
                        < self.topology_graph@.nodes.len()
                    &&& self.topology_graph@.edges[e].target < self.topology_graph@.nodes.len()
                },
            start < self.topology_graph@.nodes.len(),
            goal0 < self.topology_graph@.nodes.len(),
            goal1 < self.topology_graph@.nodes.len(),
        ensures
            match r {
                Some((c, slots)) => {
                    &&& slots@.len() >= 1
                    &&& slots@[0] == start
                    &&& (slots@[slots@.len() - 1] == goal0 || slots@[slots@.len() - 1] == goal1)
                    &&& forall|i: int|
                        0 <= i < slots@.len() ==> (#[trigger] slots@[i])
                            < self.topology_graph@.nodes.len()
                    &&& topo_chain_ok(
                        self.physical_graph@,
                        self.topology_graph@,
                        slots@,
                        *accessability,
                        *edge_cost,
                    )
                    &&& c as int == topo_chain_cost(
                        self.physical_graph@,
                        self.topology_graph@,
                        slots@,
                        *accessability,
                        *edge_cost,
                    )
                    &&& forall|w: Seq<usize>|
                        (w.len() >= 1 && w[0] == start && (w[w.len() - 1] == goal0 || w[w.len()
                            - 1] == goal1) && #[trigger] topo_chain_ok(
                            self.physical_graph@,
                            self.topology_graph@,
                            w,
                            *accessability,
                            *edge_cost,
                        )) ==> topo_chain_cost(
                            self.physical_graph@,
                            self.topology_graph@,
                            w,
                            *accessability,
                            *edge_cost,
                        ) >= c as int
                },
                None => {
                    &&& !topo_reaches(
                        self.physical_graph@,
                        self.topology_graph@,
                        start as int,
                        goal0 as int,
                        *accessability,
                        *edge_cost,
                    )
                    &&& !topo_reaches(
                        self.physical_graph@,
                        self.topology_graph@,
                        start as int,
                        goal1 as int,
                        *accessability,
                        *edge_cost,
                    )
                },
            },
    {
        let ghost p = self.physical_graph@;
        let ghost t = self.topology_graph@;
        let n = self.topology_graph.node_count();
        let mut dist: Vec<u128> = Vec::new();
        let mut reached: Vec<bool> = Vec::new();
        let mut settled: Vec<bool> = Vec::new();
        let mut parent: Vec<usize> = Vec::new();
        let mut has_parent: Vec<bool> = Vec::new();
        let mut order: Vec<usize> = Vec::new();
        let mut i: usize = 0;
        while i < n
            invariant
                i <= n,
                dist@.len() == i,
                reached@.len() == i,
                settled@.len() == i,
                parent@.len() == i,
                has_parent@.len() == i,
                order@.len() == i,
                forall|j: int| 0 <= j < i ==> !(#[trigger] reached@[j]),
                forall|j: int| 0 <= j < i ==> !(#[trigger] settled@[j]),
                forall|j: int| 0 <= j < i ==> !(#[trigger] has_parent@[j]),
                forall|j: int| 0 <= j < i ==> (#[trigger] dist@[j]) == 0,
            decreases n - i,
        {
            dist.push(0);
            reached.push(false);
            settled.push(false);
            parent.push(0);
            has_parent.push(false);
            order.push(0);
            i += 1;
        }
        reached[start] = true;
        proof {
            lemma_count_all_false(settled@);
        }
        let mut counter: usize = 0;
        let mut done = false;
        while !done
            invariant
                dj_inv(
                    p,
                    t,
                    *accessability,
                    *edge_cost,
                    start as int,
                    dist@,
                    reached@,
                    settled@,
                    parent@,
                    has_parent@,
                    order@,
                    counter as int,
                ),
                counter as int == count_true(settled@),
                counter <= n,
                dj_closure(p, t, *accessability, *edge_cost, reached@, settled@),
                dj_relaxed(p, t, *accessability, *edge_cost, dist@, settled@),
                dj_frontier(dist@, reached@, settled@),
                done ==> forall|v: int|
                    0 <= v < n && #[trigger] reached@[v] ==> settled@[v],
            decreases n - counter, (if done { 0int } else { 1int }),
        {
            let mut best: usize = n;
            let mut bi: usize = 0;
            while bi < n
                invariant
                    bi <= n,
                    best == n || (best < n && reached@[best as int] && !settled@[best as int]),
                    best == n ==> forall|v: int|
                        0 <= v < bi && #[trigger] reached@[v] ==> settled@[v],
                    best != n ==> forall|v: int|
                        0 <= v < bi && #[trigger] reached@[v] && !settled@[v]
                            ==> dist@[best as int] <= dist@[v],
                decreases n - bi,
            {
                if reached[bi] && !settled[bi] && (best == n || dist[bi] < dist[best]) {
                    best = bi;
                }
                bi += 1;
            }
            if best == n {
                done = true;
            } else {
                self.settle_round(
                    start,
                    best,
                    &mut dist,
                    &mut reached,
                    &mut settled,
                    &mut parent,
                    &mut has_parent,
                    &mut order,
                    &mut counter,
                    accessability,
                    edge_cost,
                );
            }
        }
        // pick the cheaper settled goal slot
        let mut goal: usize = goal0;
        let mut found = false;
        if reached[goal0] && reached[goal1] {
            if dist[goal1] < dist[goal0] {
                goal = goal1;
            }
            found = true;
        } else if reached[goal0] {
            found = true;
        } else if reached[goal1] {
            goal = goal1;
            found = true;
        }
        if !found {
            proof {
                assert forall|g: int| g == goal0 as int || g == goal1 as int implies !topo_reaches(
                    p,
                    t,
                    start as int,
                    g,
                    *accessability,
                    *edge_cost,
                ) by {
                    if topo_reaches(p, t, start as int, g, *accessability, *edge_cost) {
                        let w = choose|w: Seq<usize>|
                            {
                                &&& w.len() >= 1
                                &&& w[0] as int == start as int
                                &&& w[w.len() - 1] as int == g
                                &&& #[trigger] topo_chain_ok(p, t, w, *accessability, *edge_cost)
                            };
                        lemma_walk_reached(
                            p,
                            t,
                            *accessability,
                            *edge_cost,
                            reached@,
                            settled@,
                            w,
                        );
                        assert(reached@[g]);
                        assert(false);
                    }
                }
            }
            return None;
        }
        proof {
            assert(reached@[goal as int]);
            assert(reached@[goal0 as int] ==> dist@[goal as int] <= dist@[goal0 as int]);
            assert(reached@[goal1 as int] ==> dist@[goal as int] <= dist@[goal1 as int]);
        }
        // walk the parent forest back to the start
        let mut rev: Vec<usize> = Vec::new();
        rev.push(goal);
        let mut cur: usize = goal;
        while has_parent[cur]
            invariant
                cur < n,
                reached@[cur as int],
                settled@[cur as int],
                rev@.len() >= 1,
                rev@[0] == goal,
                rev@[rev@.len() - 1] == cur,
                forall|i: int| 0 <= i < rev@.len() ==> (#[trigger] rev@[i]) < n,
                forall|i: int|
                    0 <= i < rev@.len() - 1 ==> {
                        &&& topo_has_edge(t, rev@[i + 1] as int, #[trigger] rev@[i] as int)
                        &&& spec_step_cost(
                            p,
                            t,
                            rev@[i + 1] as int,
                            rev@[i] as int,
                            *accessability,
                            *edge_cost,
                        ) is Some
                        &&& dist@[rev@[i] as int] as int == sat_add_u128(
                            dist@[rev@[i + 1] as int] as int,
                            cost_value(
                                spec_step_cost(
                                    p,
                                    t,
                                    rev@[i + 1] as int,
                                    rev@[i] as int,
                                    *accessability,
                                    *edge_cost,
                                ),
                            ),
                        )
                    },
            decreases order@[cur as int],
        {
            let u = parent[cur];
            proof {
                assert(dj_edge_inv(
                    p,
                    t,
                    *accessability,
                    *edge_cost,
                    dist@,
                    settled@,
                    parent@,
                    order@,
                    cur as int,
                ));
            }
            rev.push(u);
            cur = u;
        }
        proof {
            assert(cur == start);
        }
        // reverse into the forward walk
        let mut slots: Vec<usize> = Vec::new();
        let mut k: usize = rev.len();
        while k > 0
            invariant
                k <= rev@.len(),
                slots@.len() == rev@.len() - k,
                forall|i: int|
                    0 <= i < slots@.len() ==> (#[trigger] slots@[i]) == rev@[rev@.len() - 1 - i],
            decreases k,
        {
            k -= 1;
            let v = rev[k];
            slots.push(v);
        }
        let total = dist[goal];
        proof {
            lemma_forward_of_reverse(p, t, *accessability, *edge_cost, dist@, rev@, slots@);
            lemma_search_optimal(
                p,
                t,
                *accessability,
                *edge_cost,
                dist@,
                reached@,
                settled@,
                start,
                goal0,
                goal1,
                goal,
                total,
            );
        }
        Some((total, slots))
    }

}

/// This trait provides methods for finding a cheapest route between
/// two nodes of a network under an accessibility constraint, with
/// edge costs given by a strategy of type `C`.
pub trait ShortestPathWithAccessability<C: EdgeCost> {
    /// Whether a route query between the two nodes can run.
    spec fn acc_query_ready(&self, from: NodeId, to: NodeId) -> bool;

    /// Calculates the cost of travelling from `from` to `to` under
    /// the accessibility constraint, or `None` when that step is
    /// unusable.
    fn calc_edge_cost(
        &self,
        from: NodeId,
        to: NodeId,
        accessability: &Accessability,
        edge_cost: &C,
    ) -> (r: Option<u64>);

    /// Finds a cheapest route between the two nodes under the
    /// accessibility constraint, as the route's total cost and its
    /// nodes.  `None` means no route exists.
    fn find_shortest_path_with_accessability(
        &self,
        from: NodeId,
        to: NodeId,
        accessability: Accessability,
        edge_cost: &C,
    ) -> (r: Option<(u128, Vec<NodeId>)>)
        requires
            self.acc_query_ready(from, to),
    ;
}

impl<C: EdgeCost> ShortestPathWithAccessability<C> for TransitNetwork {
    /// The dual-graph invariant holds and both nodes are present.
    open spec fn acc_query_ready(&self, from: NodeId, to: NodeId) -> bool {
        &&& self.wf()
        &&& phys_has_node(self.physical_graph@, from)
        &&& phys_has_node(self.physical_graph@, to)
    }

    /// Calculates the cost of travelling from `from` to `to` under the
    /// accessibility constraint `accessability`, or `None` when that
    /// step is unusable.
    ///
    /// A `to` node named unreachable by an `UnreachableNodes`
    /// constraint has no usable cost, whatever the edge; otherwise the
    /// first physical edge between the nodes is resolved and the
    /// caller's cost strategy applied to it, and a pair of nodes that
    /// is not present and connected has no usable cost either.
    fn calc_edge_cost(
        &self,
        from: NodeId,
        to: NodeId,
        accessability: &Accessability,
        edge_cost: &C,
    ) -> (r: Option<u64>)
        ensures
            r == spec_calc_edge_cost(self.physical_graph@, from, to, *accessability, *edge_cost),
    {
        if let Some(ns) = accessability.unreachable_nodes() {
            if contains_node_id(ns, to) {
                return None;
            }
        }
        if self.physical_graph.id_to_index(from).is_none() || self.physical_graph.id_to_index(
            to,
        ).is_none() {
            return None;
        }
        match self.physical_graph.get_transit_edge(from, to) {
            Some(edge) => Some(edge_cost.cost(edge)),
            None => None,
        }
    }

    /// Finds a cheapest route from `from` to `to` under the
    /// accessibility constraint `accessability`, with edge costs given
    /// by `edge_cost`.
    ///
    /// The search runs once from each slot of `from`'s dual pair,
    /// targets either slot of `to`'s, and keeps the cheaper result.
    /// Every returned route starts at `from`, ends at `to`, follows
    /// physical edges whose steps are usable under the constraint —
    /// in particular it never enters a node named unreachable — and
    /// its cost is the saturating sum of the steps' costs.  `None`
    /// means no such route was found.
    #[verifier::rlimit(100)]
    fn find_shortest_path_with_accessability(
        &self,
        from: NodeId,
        to: NodeId,
        accessability: Accessability,
        edge_cost: &C,
    ) -> (r: Option<(u128, Vec<NodeId>)>)
        ensures
            match r {
                Some((c, ids)) => {
                    &&& ids@.len() >= 1
                    &&& ids@[0] == from
                    &&& ids@[ids@.len() - 1] == to
                    &&& forall|i: int|
                        0 <= i < ids@.len() - 1 ==> {
                            &&& spec_calc_edge_cost(
                                self.physical_graph@,
                                #[trigger] ids@[i],
                                ids@[i + 1],
                                accessability,
                                *edge_cost,
                            ) is Some
                            &&& phys_has_edge_between(self.physical_graph@, ids@[i], ids@[i + 1])
                        }
                    &&& c as int == route_cost(
                        self.physical_graph@,
                        ids@,
                        accessability,
                        *edge_cost,
                    )
                    &&& forall|i: int|
                        1 <= i < ids@.len() ==> !accessability.spec_blocks(#[trigger] ids@[i])
                    &&& exists|w: Seq<usize>| #[trigger] is_supporting_walk(
                        self.physical_graph@,
                        self.topology_graph@,
                        accessability,
                        *edge_cost,
                        from,
                        to,
                        ids@,
                        w,
                    )
                    &&& spec_min_route_cost(
                        self.physical_graph@,
                        self.topology_graph@,
                        from,
                        to,
                        accessability,
                        *edge_cost,
                        c as int,
                    )
                },
                None => spec_no_route(
                    self.physical_graph@,
                    self.topology_graph@,
                    from,
                    to,
                    accessability,
                    *edge_cost,
                ),
            },
    {
        let ghost p = self.physical_graph@;
        let ghost t = self.topology_graph@;
        proof {
            lemma_net_has_node_iff(p, t, from);
            lemma_net_has_node_iff(p, t, to);
        }
        let (s0, s1) = self.topology_graph.id_to_index(from).unwrap();
        let (g0, g1) = self.topology_graph.id_to_index(to).unwrap();
        let r0 = self.dijkstra(s0, g0, g1, &accessability, edge_cost);
        let r1 = self.dijkstra(s1, g0, g1, &accessability, edge_cost);
        let ghost c0: Option<u128> = match r0 {
            Some((cc, _)) => Some(cc),
            None => None,
        };
        let ghost c1: Option<u128> = match r1 {
            Some((cc, _)) => Some(cc),
            None => None,
        };
        let best = match (r0, r1) {
            (Some(a), Some(b)) => if b.0 < a.0 {
                Some(b)
            } else {
                Some(a)
            },
            (Some(a), None) => Some(a),
            (None, Some(b)) => Some(b),
            (None, None) => None,
        };
        match best {
            None => None,
            Some((c, slots)) => {
                let len = slots.len();
                let mut ids: Vec<NodeId> = Vec::new();
                let mut i: usize = 0;
                while i < len
                    invariant
                        t == self.topology_graph@,
                        i <= len,
                        len == slots@.len(),
                        forall|j: int| 0 <= j < len ==> (#[trigger] slots@[j]) < t.nodes.len(),
                        ids@.len() == i,
                        forall|j: int|
                            0 <= j < i ==> (#[trigger] ids@[j]) == node_id_at(
                                t,
                                slots@[j] as int,
                            ),
                    decreases len - i,
                {
                    let v = slots[i];
                    let id = self.topology_graph.index_to_id(v).unwrap();
                    ids.push(id);
                    i += 1;
                }
                proof {
                    assert(node_id_at(t, s0 as int) == from && node_id_at(t, s1 as int) == from);
                    lemma_route_props(p, t, accessability, *edge_cost, slots@, ids@);
                    assert(is_supporting_walk(
                        p,
                        t,
                        accessability,
                        *edge_cost,
                        from,
                        to,
                        ids@,
                        slots@,
                    ));
                    assert(c0 is Some ==> c <= c0.unwrap());
                    assert(c1 is Some ==> c <= c1.unwrap());
                    lemma_combine_optimal(
                        p,
                        t,
                        accessability,
                        *edge_cost,
                        s0,
                        s1,
                        g0,
                        g1,
                        c0,
                        c1,
                        c,
                    );
                    assert forall|w: Seq<usize>|
                        (w.len() >= 1 && (w[0] as int == topo_pair_first(t, from) || w[0] as int
                            == topo_pair_first(t, from) + 1) && (w[w.len() - 1] as int
                            == topo_pair_first(t, to) || w[w.len() - 1] as int == topo_pair_first(
                            t,
                            to,
                        ) + 1) && #[trigger] topo_chain_ok(p, t, w, accessability, *edge_cost))
                        implies topo_chain_cost(p, t, w, accessability, *edge_cost) >= c as int by {
                        assert(w[0] == s0 || w[0] == s1);
                        assert(w[w.len() - 1] == g0 || w[w.len() - 1] == g1);
                    }
                }
                Some((c, ids))
            },
        }
    }
}

/// A route reading off the node identifiers of a usable walk steps
/// only over usable, physically present edges, never enters a node
/// named unreachable, and costs the same as the walk.
proof fn lemma_route_props<C: EdgeCost>(
    p: PhysModel,
    t: TopoModel,
    acc: Accessability,
    cost: C,
    slots: Seq<usize>,
    ids: Seq<NodeId>,
)
    requires
        net_wf(p, t),
        slots.len() >= 1,
        ids.len() == slots.len(),
        forall|j: int| 0 <= j < slots.len() ==> (#[trigger] slots[j]) < t.nodes.len(),
        forall|j: int| 0 <= j < ids.len() ==> (#[trigger] ids[j]) == node_id_at(t, slots[j] as int),
        topo_chain_ok(p, t, slots, acc, cost),
    ensures
        forall|i: int|
            0 <= i < ids.len() - 1 ==> {
                &&& spec_calc_edge_cost(p, #[trigger] ids[i], ids[i + 1], acc, cost) is Some
                &&& phys_has_edge_between(p, ids[i], ids[i + 1])
            },
        route_cost(p, ids, acc, cost) == topo_chain_cost(p, t, slots, acc, cost),
        forall|i: int| 1 <= i < ids.len() ==> !acc.spec_blocks(#[trigger] ids[i]),
{
    assert forall|i: int| 0 <= i < ids.len() - 1 implies {
        &&& spec_calc_edge_cost(p, #[trigger] ids[i], ids[i + 1], acc, cost) is Some
        &&& phys_has_edge_between(p, ids[i], ids[i + 1])
    } by {
        assert(topo_has_edge(t, slots[i] as int, slots[i + 1] as int));
        assert(spec_step_cost(p, t, slots[i] as int, slots[i + 1] as int, acc, cost) is Some);
        let we = choose|we: int|
            0 <= we < t.edges.len() && (#[trigger] t.edges[we]).source == slots[i]
                && t.edges[we].target == slots[i + 1];
        lemma_topo_edge_matches_phys(p, t, we);
    }
    lemma_route_cost_matches_chain(p, t, acc, cost, slots, ids);
    assert forall|i: int| 1 <= i < ids.len() implies !acc.spec_blocks(#[trigger] ids[i]) by {
        assert(spec_calc_edge_cost(p, ids[i - 1], ids[i], acc, cost) is Some);
    }
}

/// The count of `true` entries of an all-`false` sequence is zero.
proof fn lemma_count_all_false(s: Seq<bool>)
    requires
        forall|j: int| 0 <= j < s.len() ==> !(#[trigger] s[j]),
    ensures
        count_true(s) == 0,
    decreases s.len(),
{
    if s.len() > 0 {
        lemma_count_all_false(s.drop_last());
    }
}

/// Walk usability and walk cost depend on an accessibility constraint
/// only through which nodes it names unreachable.
proof fn lemma_chain_same_blocks<C: EdgeCost>(
    p: PhysModel,
    t: TopoModel,
    acc1: Accessability,
    acc2: Accessability,
    cost: C,
    w: Seq<usize>,
)
    requires
        forall|id: NodeId| acc1.spec_blocks(id) == acc2.spec_blocks(id),
    ensures
        topo_chain_ok(p, t, w, acc1, cost) == topo_chain_ok(p, t, w, acc2, cost),
        topo_chain_cost(p, t, w, acc1, cost) == topo_chain_cost(p, t, w, acc2, cost),
    decreases w.len(),
{
    if topo_chain_ok(p, t, w, acc1, cost) {
        assert forall|i: int| 0 <= i < w.len() - 1 implies {
            &&& topo_has_edge(t, #[trigger] w[i] as int, w[i + 1] as int)
            &&& spec_step_cost(p, t, w[i] as int, w[i + 1] as int, acc2, cost) is Some
        } by {
            assert(spec_step_cost(p, t, w[i] as int, w[i + 1] as int, acc1, cost) is Some);
        }
    }
    if topo_chain_ok(p, t, w, acc2, cost) {
        assert forall|i: int| 0 <= i < w.len() - 1 implies {
            &&& topo_has_edge(t, #[trigger] w[i] as int, w[i + 1] as int)
            &&& spec_step_cost(p, t, w[i] as int, w[i + 1] as int, acc1, cost) is Some
        } by {
            assert(spec_step_cost(p, t, w[i] as int, w[i + 1] as int, acc2, cost) is Some);
        }
    }
    if w.len() > 1 {
        lemma_chain_same_blocks(p, t, acc1, acc2, cost, w.drop_last());
    }
}

/// A route whose steps are all usable costs, under the unit cost,
/// exactly its number of steps.
proof fn lemma_unit_route_cost(p: PhysModel, ids: Seq<NodeId>, acc: Accessability)
    requires
        ids.len() >= 1,
        ids.len() - 1 <= u128::MAX,
        forall|i: int|
            0 <= i < ids.len() - 1 ==> spec_calc_edge_cost(p, #[trigger] ids[i], ids[i + 1], acc, UnitCost)
                is Some,
    ensures
        route_cost(p, ids, acc, UnitCost) == ids.len() - 1,
    decreases ids.len(),
{
    if ids.len() > 1 {
        let ids0 = ids.drop_last();
        assert forall|i: int|
            0 <= i < ids0.len() - 1 implies spec_calc_edge_cost(
            p,
            #[trigger] ids0[i],
            ids0[i + 1],
            acc,
            UnitCost,
        ) is Some by {
            assert(ids0[i] == ids[i]);
            assert(ids0[i + 1] == ids[i + 1]);
        }
        lemma_unit_route_cost(p, ids0, acc);
        assert(cost_value(
            spec_calc_edge_cost(p, ids[ids.len() - 2], ids[ids.len() - 1], acc, UnitCost),
        ) == 1);
    }
}

/// What a unit-cost route answer `ids` guarantees under every
/// accessibility constraint that names no node unreachable: no usable
/// walk of the topological graph between the dual pairs of `from` and
/// `to` has fewer edges, and a walk supporting `ids` exists.
pub open spec fn unit_route_answer(
    p: PhysModel,
    t: TopoModel,
    from: NodeId,
    to: NodeId,
    ids: Seq<NodeId>,
) -> bool {
    forall|acc: Accessability|
        (forall|id: NodeId| !acc.spec_blocks(id)) ==> {
            &&& #[trigger] spec_min_route_cost(p, t, from, to, acc, UnitCost, ids.len() - 1)
            &&& exists|w: Seq<usize>| #[trigger] is_supporting_walk(
                p,
                t,
                acc,
                UnitCost,
                from,
                to,
                ids,
                w,
            )
        }
}

/// An answer of the unit-cost search under one constraint that names
/// no node unreachable carries to every such constraint: its length
/// bounds every usable walk between the dual pairs, and a supporting
/// walk exists.
proof fn lemma_unit_answer_transfers(
    p: PhysModel,
    t: TopoModel,
    from: NodeId,
    to: NodeId,
    gacc: Accessability,
    c: u128,
    ids: Seq<NodeId>,
)
    requires
        forall|id: NodeId| !gacc.spec_blocks(id),
        ids.len() >= 1,
        ids.len() - 1 <= u128::MAX,
        forall|i: int|
            0 <= i < ids.len() - 1 ==> spec_calc_edge_cost(p, #[trigger] ids[i], ids[i + 1], gacc, UnitCost)
                is Some,
        c as int == route_cost(p, ids, gacc, UnitCost),
        spec_min_route_cost(p, t, from, to, gacc, UnitCost, c as int),
        exists|w: Seq<usize>| #[trigger] is_supporting_walk(p, t, gacc, UnitCost, from, to, ids, w),
    ensures
        unit_route_answer(p, t, from, to, ids),
{
    lemma_unit_route_cost(p, ids, gacc);
    assert forall|acc: Accessability|
        (forall|id: NodeId| !acc.spec_blocks(id)) implies {
        &&& #[trigger] spec_min_route_cost(p, t, from, to, acc, UnitCost, ids.len() - 1)
        &&& exists|w: Seq<usize>| #[trigger] is_supporting_walk(
            p,
            t,
            acc,
            UnitCost,
            from,
            to,
            ids,
            w,
        )
    } by {
        assert forall|w: Seq<usize>|
            (w.len() >= 1 && (w[0] as int == topo_pair_first(t, from) || w[0] as int
                == topo_pair_first(t, from) + 1) && (w[w.len() - 1] as int == topo_pair_first(
                t,
                to,
            ) || w[w.len() - 1] as int == topo_pair_first(t, to) + 1) && #[trigger] topo_chain_ok(
                p,
                t,
                w,
                acc,
                UnitCost,
            )) implies topo_chain_cost(p, t, w, acc, UnitCost) >= ids.len() - 1 by {
            lemma_chain_same_blocks(p, t, gacc, acc, UnitCost, w);
            assert(topo_chain_ok(p, t, w, gacc, UnitCost));
            assert(topo_chain_cost(p, t, w, gacc, UnitCost) >= c as int);
        }
        assert(spec_min_route_cost(p, t, from, to, acc, UnitCost, ids.len() - 1));
        let w0 = choose|w: Seq<usize>| #[trigger] is_supporting_walk(
            p,
            t,
            gacc,
            UnitCost,
            from,
            to,
            ids,
            w,
        );
        lemma_chain_same_blocks(p, t, gacc, acc, UnitCost, w0);
        assert(is_supporting_walk(p, t, acc, UnitCost, from, to, ids, w0));
    }
}

/// A query with no route under one constraint that names no node
/// unreachable has none under any such constraint.
proof fn lemma_no_route_transfers(
    p: PhysModel,
    t: TopoModel,
    from: NodeId,
    to: NodeId,
    gacc: Accessability,
)
    requires
        forall|id: NodeId| !gacc.spec_blocks(id),
        spec_no_route(p, t, from, to, gacc, UnitCost),
    ensures
        forall|acc: Accessability|
            (forall|id: NodeId| !acc.spec_blocks(id)) ==> #[trigger] spec_no_route(
                p,
                t,
                from,
                to,
                acc,
                UnitCost,
            ),
{
    let s0 = topo_pair_first(t, from);
    let g0 = topo_pair_first(t, to);
    assert forall|acc: Accessability|
        (forall|id: NodeId| !acc.spec_blocks(id)) implies #[trigger] spec_no_route(
        p,
        t,
        from,
        to,
        acc,
        UnitCost,
    ) by {
        lemma_reaches_same_blocks(p, t, s0, g0, gacc, acc, UnitCost);
        lemma_reaches_same_blocks(p, t, s0, g0 + 1, gacc, acc, UnitCost);
        lemma_reaches_same_blocks(p, t, s0 + 1, g0, gacc, acc, UnitCost);
        lemma_reaches_same_blocks(p, t, s0 + 1, g0 + 1, gacc, acc, UnitCost);
    }
}

impl TransitNetwork {
    /// The unit-cost search, exposing only what the plain query needs:
    /// the route's shape, its exact unit cost, its minimality, a
    /// supporting walk, and the absence of any route on `None`.
    #[verifier::spinoff_prover]
    #[verifier::rlimit(100)]
    fn unit_search(&self, from: NodeId, to: NodeId, accessability: Accessability) -> (r: Option<
        (u128, Vec<NodeId>),
    >)
        requires
            self.wf(),
            phys_has_node(self.physical_graph@, from),
            phys_has_node(self.physical_graph@, to),
            forall|id: NodeId| !accessability.spec_blocks(id),
        ensures
            ({
                let p = self.physical_graph@;
                let t = self.topology_graph@;
                match r {
                    Some((c, ids)) => {
                        &&& ids@.len() >= 1
                        &&& ids@[0] == from
                        &&& ids@[ids@.len() - 1] == to
                        &&& forall|i: int|
                            0 <= i < ids@.len() - 1 ==> phys_has_edge_between(
                                p,
                                #[trigger] ids@[i],
                                ids@[i + 1],
                            )
                        &&& unit_route_answer(p, t, from, to, ids@)
                    },
                    None => forall|acc: Accessability|
                        (forall|id: NodeId| !acc.spec_blocks(id)) ==> #[trigger] spec_no_route(
                            p,
                            t,
                            from,
                            to,
                            acc,
                            UnitCost,
                        ),
                }
            }),
    {
        let ghost p = self.physical_graph@;
        let ghost t = self.topology_graph@;
        let ghost gacc = accessability;
        match self.find_shortest_path_with_accessability(from, to, accessability, &UnitCost) {
            Some((c, ids)) => {
                let l = ids.len();
                proof {
                    assert(ids@.len() - 1 <= u128::MAX) by {
                        assert(l <= usize::MAX);
                    }
                    lemma_unit_answer_transfers(p, t, from, to, gacc, c, ids@);
                }
                Some((c, ids))
            },
            None => {
                proof {
                    lemma_no_route_transfers(p, t, from, to, gacc);
                }
                None
            },
        }
    }
}

/// `ShortestPath` provides functionality to compute a shortest path




/// between two nodes of a network.
pub trait ShortestPath {
    /// Whether a path query between the two nodes can run.
    spec fn path_query_ready(&self, from: NodeId, to: NodeId) -> bool;

    /// What a returned route guarantees: it leads from `from` to `to`
    /// along existing physical edges.
    spec fn route_ok(&self, from: NodeId, to: NodeId, ids: Seq<NodeId>) -> bool;

    /// What a `None` answer guarantees: no route from `from` to `to`
    /// exists.
    spec fn no_route(&self, from: NodeId, to: NodeId) -> bool;

    /// Finds a shortest path from the start node to the destination
    /// node, as a vector of node identifiers whose first element is
    /// the start node and whose last is the destination.  `None` means
    /// no path exists.
    fn find_shortest_path(&self, from: NodeId, to: NodeId) -> (r: Option<Vec<NodeId>>)
        requires
            self.path_query_ready(from, to),
        ensures
            match r {
                Some(ids) => self.route_ok(from, to, ids@),
                None => self.no_route(from, to),
            },
    ;
}

impl ShortestPath for TransitNetwork {
    /// The dual-graph invariant holds and both nodes are present.
    open spec fn path_query_ready(&self, from: NodeId, to: NodeId) -> bool {
        &&& self.wf()
        &&& phys_has_node(self.physical_graph@, from)
        &&& phys_has_node(self.physical_graph@, to)
    }

    /// The route starts at `from`, ends at `to`, and every consecutive
    /// pair of its nodes is joined by a physical edge.
    open spec fn route_ok(&self, from: NodeId, to: NodeId, ids: Seq<NodeId>) -> bool {
        &&& ids.len() >= 1
        &&& ids[0] == from
        &&& ids[ids.len() - 1] == to
        &&& forall|i: int|
            0 <= i < ids.len() - 1 ==> phys_has_edge_between(
                self.physical_graph@,
                #[trigger] ids[i],
                ids[i + 1],
            )
    }

    /// Under any accessibility constraint that names no node
    /// unreachable, no usable walk of the topological graph joins the
    /// dual pairs of the two nodes.
    open spec fn no_route(&self, from: NodeId, to: NodeId) -> bool {
        forall|acc: Accessability|
            (forall|id: NodeId| !acc.spec_blocks(id)) ==> #[trigger] spec_no_route(
                self.physical_graph@,
                self.topology_graph@,
                from,
                to,
                acc,
                UnitCost,
            )
    }

    /// Searches with an empty unreachable set and unit edge costs.
    /// A returned route has the fewest edges any usable walk of the
    /// topological graph between the two nodes' dual pairs can have,
    /// under any accessibility constraint naming no node unreachable,
    /// and is supported by such a walk.
    #[verifier::spinoff_prover]
    #[verifier::rlimit(100)]
    fn find_shortest_path(&self, from: NodeId, to: NodeId) -> (r: Option<Vec<NodeId>>)
        ensures
            match r {
                Some(ids) => unit_route_answer(
                    self.physical_graph@,
                    self.topology_graph@,
                    from,
                    to,
                    ids@,
                ),
                None => true,
            },
    {
        let acc0 = Accessability::UnreachableNodes(Vec::new());
        match self.unit_search(from, to, acc0) {
            Some((_, ids)) => Some(ids),
            None => None,
        }
    }
}

} // verus!

//! The growth simulation: an ordered cyclic sequence of nodes plus the
//! configuration scalars. One `tick` computes separation and cohesion
//! forces for every node from the same pre-iteration snapshot, integrates
//! all nodes, then subdivides every edge that grew past `max_edge_length`.
//! The whole step is pinned to the spec-level function `tick_spec`.
use vstd::prelude::*;
use crate::intmath::{div_tz, div_trunc, lemma_div_tz_abs_le};
use crate::node::{
    apply_force_spec, in_world, node_ok, seek_spec, update_pos_spec, update_vel_spec, Node,
};
use crate::spatial::{close_indices, close_set, index_points, kd_build, lemma_close_set_props};
use crate::vec2::{cap_spec, dist2, norm2, scale_spec, vadd, vsub, Vec2};
use crate::intmath::lemma_abs_le_of_sq_le;
use crate::{LIMIT_MAX, RATIO_MAX, SCALE, UNIT_SQ, WORLD_MAX};

verus! {

/// Position, velocity and acceleration of one node, as mathematical pairs.
pub open spec fn node_m(n: Node) -> ((int, int), (int, int), (int, int)) {
    (n.position@, n.velocity@, n.acceleration@)
}

/// The whole cycle as a sequence of node models.
pub open spec fn models(ns: Seq<Node>) -> Seq<((int, int), (int, int), (int, int))> {
    ns.map(|i: int, n: Node| node_m(n))
}

/// All node positions, in cycle order.
pub open spec fn positions(ns: Seq<Node>) -> Seq<(int, int)> {
    ns.map(|i: int, n: Node| n.position@)
}

/// Cyclic predecessor index.
pub open spec fn prev_idx(i: int, n: int) -> int {
    if i == 0 {
        n - 1
    } else {
        i - 1
    }
}

/// Cyclic successor index.
pub open spec fn next_idx(i: int, n: int) -> int {
    if i == n - 1 {
        0
    } else {
        i + 1
    }
}

/// Componentwise midpoint, rounding toward zero.
pub open spec fn midpoint(a: (int, int), b: (int, int)) -> (int, int) {
    (div_tz(a.0 + b.0, 2), div_tz(a.1 + b.1, 2))
}

/// The repulsion that the node at `p` exerts on a node at `q`: the unit
/// vector from `p` to `q` weighted by the inverse distance, which in fixed
/// point is `(q - p) * UNIT_SQ / dist2`. Coincident nodes contribute
/// nothing.
pub open spec fn sep_contrib(q: (int, int), p: (int, int)) -> (int, int) {
    let dd = dist2(p, q);
    if dd > 0 {
        (div_tz((q.0 - p.0) * UNIT_SQ, dd), div_tz((q.1 - p.1) * UNIT_SQ, dd))
    } else {
        (0, 0)
    }
}

/// Sum of the repulsion contributions of the first `k` entries of the
/// neighbor list `cl`.
pub open spec fn sep_sum(ps: Seq<(int, int)>, q: (int, int), cl: Seq<u64>, k: int) -> (int, int)
    decreases k,
{
    if k <= 0 {
        (0, 0)
    } else {
        vadd(sep_sum(ps, q, cl, k - 1), sep_contrib(q, ps[cl[k - 1] as int]))
    }
}

/// The separation force on node `i`: average the repulsion contributions of
/// all nodes within `desired_separation` (boundary included), rescale to
/// magnitude `max_speed`, subtract the velocity, cap at `max_force`.
pub open spec fn sep_force(
    ps: Seq<(int, int)>,
    i: int,
    vel: (int, int),
    s: int,
    mf: int,
    r: int,
) -> (int, int) {
    let cl = close_set(ps, ps[i], r, ps.len() as int);
    let sum = sep_sum(ps, ps[i], cl, cl.len() as int);
    let avg = if cl.len() > 0 {
        (div_tz(sum.0, cl.len() as int), div_tz(sum.1, cl.len() as int))
    } else {
        sum
    };
    cap_spec(vsub(scale_spec(avg, s), vel), mf)
}

/// The cohesion force on node `i`: seek the midpoint of its two cyclic
/// neighbors.
pub open spec fn coh_force(ps: Seq<(int, int)>, i: int, vel: (int, int), s: int, mf: int) -> (
    int,
    int,
) {
    let n = ps.len() as int;
    seek_spec(ps[i], vel, midpoint(ps[prev_idx(i, n)], ps[next_idx(i, n)]), s, mf)
}

/// The separation force weighted by the separation/cohesion ratio (given in
/// thousandths).
pub open spec fn scaled_sep(sep: (int, int), ratio: int) -> (int, int) {
    (div_tz(sep.0 * ratio, SCALE as int), div_tz(sep.1 * ratio, SCALE as int))
}

/// One integrated node: both forces applied to the accumulator, then one
/// velocity/position step.
pub open spec fn integrated_node(ns: Seq<Node>, i: int, s: int, mf: int, ratio: int, r: int) -> (
    (int, int),
    (int, int),
    (int, int),
) {
    let ps = positions(ns);
    let sep = sep_force(ps, i, ns[i].velocity@, s, mf, r);
    let coh = coh_force(ps, i, ns[i].velocity@, s, mf);
    let acc1 = apply_force_spec(apply_force_spec(ns[i].acceleration@, scaled_sep(sep, ratio)), coh);
    let vel1 = update_vel_spec(ns[i].velocity@, acc1, s);
    let pos1 = update_pos_spec(ns[i].position@, vel1);
    (pos1, vel1, (0, 0))
}

/// The differentiation pass: every node integrated against the same
/// snapshot.
pub open spec fn differentiated(ns: Seq<Node>, s: int, mf: int, ratio: int, r: int) -> Seq<
    ((int, int), (int, int), (int, int)),
> {
    Seq::new(ns.len(), |i: int| integrated_node(ns, i, s, mf, ratio, r))
}

/// Whether the cyclic edge leaving node model `i` is longer than `el`.
pub open spec fn edge_long(
    ms: Seq<((int, int), (int, int), (int, int))>,
    i: int,
    el: int,
) -> bool {
    dist2(ms[i].0, ms[next_idx(i, ms.len() as int)].0) > el * el
}

/// The node inserted into a long edge: at the midpoint, at rest.
pub open spec fn mid_node(ms: Seq<((int, int), (int, int), (int, int))>, i: int) -> (
    (int, int),
    (int, int),
    (int, int),
) {
    (midpoint(ms[i].0, ms[next_idx(i, ms.len() as int)].0), (0, 0), (0, 0))
}

/// The growth pass over the first `k` edges: each original node followed by
/// a midpoint node exactly when its outgoing edge is long.
pub open spec fn grown_prefix(
    ms: Seq<((int, int), (int, int), (int, int))>,
    el: int,
    k: int,
) -> Seq<((int, int), (int, int), (int, int))>
    decreases k,
{
    if k <= 0 {
        Seq::empty()
    } else {
        let rest = grown_prefix(ms, el, k - 1).push(ms[k - 1]);
        if edge_long(ms, k - 1, el) {
            rest.push(mid_node(ms, k - 1))
        } else {
            rest
        }
    }
}

/// The growth pass over the whole cycle.
pub open spec fn grown(ms: Seq<((int, int), (int, int), (int, int))>, el: int) -> Seq<
    ((int, int), (int, int), (int, int)),
> {
    grown_prefix(ms, el, ms.len() as int)
}

/// One whole iteration: differentiate, then grow.
pub open spec fn tick_spec(ns: Seq<Node>, s: int, mf: int, ratio: int, r: int, el: int) -> Seq<
    ((int, int), (int, int), (int, int)),
> {
    grown(differentiated(ns, s, mf, ratio, r), el)
}

/// The number of long edges leaving node models with index below `i`.
pub open spec fn count_long_before(
    ms: Seq<((int, int), (int, int), (int, int))>,
    el: int,
    i: int,
) -> int
    decreases i,
{
    if i <= 0 {
        0
    } else {
        count_long_before(ms, el, i - 1) + if edge_long(ms, i - 1, el) {
            1int
        } else {
            0int
        }
    }
}

/// Where node `i` of the pre-growth sequence stands after growth.
pub open spec fn new_index(
    ms: Seq<((int, int), (int, int), (int, int))>,
    el: int,
    i: int,
) -> int {
    i + count_long_before(ms, el, i)
}

/// Long-edge counts are nonnegative.
proof fn lemma_count_long_nonneg(
    ms: Seq<((int, int), (int, int), (int, int))>,
    el: int,
    i: int,
)
    requires
        0 <= i,
    ensures
        count_long_before(ms, el, i) >= 0,
    decreases i,
{
    if i > 0 {
        lemma_count_long_nonneg(ms, el, i - 1);
    }
}

/// Counting long edges is monotone and gains at most one per edge.
proof fn lemma_count_long_mono(
    ms: Seq<((int, int), (int, int), (int, int))>,
    el: int,
    i: int,
    j: int,
)
    requires
        0 <= i <= j,
    ensures
        count_long_before(ms, el, i) <= count_long_before(ms, el, j),
        count_long_before(ms, el, j) - count_long_before(ms, el, i) <= j - i,
        count_long_before(ms, el, i) >= 0,
    decreases j - i,
{
    lemma_count_long_nonneg(ms, el, i);
    if i < j {
        lemma_count_long_mono(ms, el, i, j - 1);
    }
}

/// The growth pass keeps every pre-growth node, at its shifted index, and
/// places each midpoint node right after its edge's first endpoint.
#[verifier::rlimit(100)]
proof fn lemma_grown_prefix_index(
    ms: Seq<((int, int), (int, int), (int, int))>,
    el: int,
    k: int,
)
    requires
        0 <= k <= ms.len(),
    ensures
        grown_prefix(ms, el, k).len() == k + count_long_before(ms, el, k),
        forall|i: int|
            0 <= i < k ==> grown_prefix(ms, el, k)[#[trigger] new_index(ms, el, i)] == ms[i],
        forall|i: int|
            0 <= i < k && edge_long(ms, i, el) ==> grown_prefix(ms, el, k)[#[trigger] new_index(
                ms,
                el,
                i,
            ) + 1] == mid_node(ms, i),
    decreases k,
{
    if k > 0 {
        lemma_grown_prefix_index(ms, el, k - 1);
        let gpk = grown_prefix(ms, el, k);
        let gp1 = grown_prefix(ms, el, k - 1);
        let with_end = gp1.push(ms[k - 1]);
        assert(new_index(ms, el, k - 1) == gp1.len());
        assert(count_long_before(ms, el, k) == count_long_before(ms, el, k - 1) + (
        if edge_long(ms, k - 1, el) {
            1int
        } else {
            0int
        }));
        assert forall|i: int| 0 <= i < k implies gpk[#[trigger] new_index(ms, el, i)]
            == ms[i] by {
            if i < k - 1 {
                lemma_count_long_mono(ms, el, i, k - 1);
                assert(new_index(ms, el, i) < gp1.len());
                assert(gp1[new_index(ms, el, i)] == ms[i]);
                assert(with_end[new_index(ms, el, i)] == ms[i]);
            } else {
                assert(with_end[gp1.len() as int] == ms[k - 1]);
            }
        }
        assert forall|i: int| 0 <= i < k && edge_long(ms, i, el) implies gpk[#[trigger] new_index(
            ms,
            el,
            i,
        ) + 1] == mid_node(ms, i) by {
            if i < k - 1 {
                lemma_count_long_mono(ms, el, i + 1, k - 1);
                assert(count_long_before(ms, el, i + 1) == count_long_before(ms, el, i) + 1);
                assert(new_index(ms, el, i) + 1 < gp1.len());
                assert(gp1[new_index(ms, el, i) + 1] == mid_node(ms, i));
                assert(with_end[new_index(ms, el, i) + 1] == mid_node(ms, i));
            } else {
                assert(gpk == with_end.push(mid_node(ms, k - 1)));
                assert(gpk[with_end.len() as int] == mid_node(ms, k - 1));
            }
        }
    }
}

/// Cyclic order preservation: growth keeps every original node, in the
/// original relative order, and each inserted node stands strictly between
/// the two endpoints of the edge it subdivides.
pub proof fn lemma_cyclic_order_preserved(
    ms: Seq<((int, int), (int, int), (int, int))>,
    el: int,
)
    ensures
        forall|i: int|
            0 <= i < ms.len() ==> grown(ms, el)[new_index(ms, el, i)] == ms[i],
        forall|i: int, j: int|
            0 <= i < j < ms.len() ==> new_index(ms, el, i) < new_index(ms, el, j),
        forall|i: int|
            0 <= i < ms.len() ==> 0 <= #[trigger] new_index(ms, el, i) < grown(ms, el).len(),
        forall|i: int|
            0 <= i < ms.len() && edge_long(ms, i, el) ==> grown(ms, el)[new_index(ms, el, i) + 1]
                == mid_node(ms, i),
        forall|i: int|
            0 <= i < ms.len() - 1 ==> new_index(ms, el, i + 1) == new_index(ms, el, i) + (
            if edge_long(ms, i, el) {
                2int
            } else {
                1int
            }),
        grown(ms, el).len() >= ms.len(),
{
    lemma_grown_prefix_index(ms, el, ms.len() as int);
    lemma_count_long_mono(ms, el, 0, ms.len() as int);
    assert forall|i: int, j: int| 0 <= i < j < ms.len() implies new_index(ms, el, i) < new_index(
        ms,
        el,
        j,
    ) by {
        lemma_count_long_mono(ms, el, i, j);
    }
    assert forall|i: int| 0 <= i < ms.len() implies 0 <= #[trigger] new_index(ms, el, i) < grown(
        ms,
        el,
    ).len() by {
        lemma_count_long_mono(ms, el, 0, i);
        lemma_count_long_mono(ms, el, i, ms.len() as int);
    }
}

/// Subdivision threshold: an edge strictly longer than `el` gets exactly
/// one midpoint node inserted between its endpoints in one growth pass; an
/// edge of length exactly `el` (or shorter) gets none, and its endpoints
/// stay adjacent.
pub proof fn lemma_subdivision_threshold(
    ms: Seq<((int, int), (int, int), (int, int))>,
    el: int,
    i: int,
)
    requires
        0 <= i < ms.len() - 1,
    ensures
        dist2(ms[i].0, ms[i + 1].0) > el * el ==> {
            &&& grown(ms, el)[new_index(ms, el, i)] == ms[i]
            &&& grown(ms, el)[new_index(ms, el, i) + 1] == mid_node(ms, i)
            &&& grown(ms, el)[new_index(ms, el, i) + 2] == ms[i + 1]
            &&& new_index(ms, el, i + 1) == new_index(ms, el, i) + 2
        },
        dist2(ms[i].0, ms[i + 1].0) <= el * el ==> {
            &&& grown(ms, el)[new_index(ms, el, i)] == ms[i]
            &&& grown(ms, el)[new_index(ms, el, i) + 1] == ms[i + 1]
            &&& new_index(ms, el, i + 1) == new_index(ms, el, i) + 1
        },
{
    lemma_cyclic_order_preserved(ms, el);
    assert(next_idx(i, ms.len() as int) == i + 1);
}

/// If `r` is smaller than the distance from node `i` to every other node,
/// the separation force on node `i` is just its negated velocity, capped at
/// `mf`.
pub proof fn lemma_no_neighbor_separation(
    ps: Seq<(int, int)>,
    i: int,
    vel: (int, int),
    s: int,
    mf: int,
    r: int,
)
    requires
        0 <= i < ps.len(),
        ps.len() <= u64::MAX,
        r >= 1,
        forall|j: int| 0 <= j < ps.len() && j != i ==> dist2(#[trigger] ps[j], ps[i]) > r * r,
    ensures
        sep_force(ps, i, vel, s, mf, r) == cap_spec((-vel.0, -vel.1), mf),
{
    let n = ps.len() as int;
    let q = ps[i];
    let cl = close_set(ps, q, r, n);
    lemma_close_set_props(ps, q, r, n);
    assert(r * r >= 1) by (nonlinear_arith)
        requires r >= 1;
    assert(dist2(ps[i], q) == 0);
    assert(cl.contains(i as u64));
    assert forall|j: int| 0 <= j < cl.len() implies cl[j] == i as u64 by {
        assert(cl.contains(cl[j]));
    }
    let j0 = choose|j: int| 0 <= j < cl.len() && cl[j] == i as u64;
    if cl.len() > 1 {
        assert(cl[0] == i as u64 && cl[1] == i as u64);
        assert(false);
    }
    assert(cl.len() == 1);
    assert(sep_sum(ps, q, cl, 1) == vadd(sep_sum(ps, q, cl, 0), sep_contrib(q, ps[i])));
    assert(sep_contrib(q, ps[i]) == (0int, 0int));
    assert(sep_sum(ps, q, cl, 1) == (0int, 0int));
    assert(div_tz(0, 1) == 0);
    assert(scale_spec((0int, 0int), s) == (0int, 0int));
    assert(vsub((0int, 0int), vel) == (-vel.0, -vel.1));
}

/// Determinism: the outcome of one iteration is a function of the node
/// models and the configuration alone; two simulations in equal states make
/// equal steps.
pub proof fn lemma_tick_deterministic(
    ns1: Seq<Node>,
    ns2: Seq<Node>,
    s: int,
    mf: int,
    ratio: int,
    r: int,
    el: int,
)
    requires
        models(ns1) == models(ns2),
    ensures
        tick_spec(ns1, s, mf, ratio, r, el) == tick_spec(ns2, s, mf, ratio, r, el),
{
    assert(models(ns1).len() == ns1.len());
    assert(models(ns2).len() == ns2.len());
    assert(ns1.len() == ns2.len());
    assert forall|i: int| 0 <= i < ns1.len() implies #[trigger] positions(ns1)[i] == positions(
        ns2,
    )[i] by {
        assert(models(ns1)[i] == models(ns2)[i]);
    }
    assert(positions(ns1) =~= positions(ns2));
    assert forall|i: int| 0 <= i < ns1.len() implies integrated_node(ns1, i, s, mf, ratio, r)
        == integrated_node(ns2, i, s, mf, ratio, r) by {
        assert(models(ns1)[i] == models(ns2)[i]);
        assert(ns1[i].velocity@ == ns2[i].velocity@);
        assert(ns1[i].acceleration@ == ns2[i].acceleration@);
        assert(ns1[i].position@ == ns2[i].position@);
    }
    assert(differentiated(ns1, s, mf, ratio, r) =~= differentiated(ns2, s, mf, ratio, r));
}

/// The differential growth simulation.
pub struct DifferentialGrowth {
    /// The nodes, in cyclic curve order.
    pub nodes: Vec<Node>,
    /// The maximum magnitude of any steering force.
    pub max_force: i64,
    /// The maximum magnitude of a node's velocity.
    pub max_speed: i64,
    /// The radius beyond which no repulsion acts.
    pub desired_separation: i64,
    /// The weight of separation relative to cohesion, in thousandths.
    pub separation_cohesion_ratio: i64,
    /// The subdivision threshold for edge lengths.
    pub max_edge_length: i64,
}

/// Well-formedness of a simulation: at least two nodes, positive bounded
/// configuration, every node well formed and carrying the simulation's
/// limits.
pub open spec fn sim_ok(g: DifferentialGrowth) -> bool {
    &&& g.nodes@.len() >= 2
    &&& 0 < g.max_force <= LIMIT_MAX
    &&& 0 < g.max_speed <= LIMIT_MAX
    &&& 0 < g.desired_separation <= LIMIT_MAX
    &&& 0 < g.separation_cohesion_ratio <= RATIO_MAX
    &&& 0 < g.max_edge_length <= LIMIT_MAX
    &&& forall|i: int|
        0 <= i < g.nodes@.len() ==> node_ok(#[trigger] g.nodes@[i]) && g.nodes@[i].max_speed
            == g.max_speed && g.nodes@[i].max_force == g.max_force
}

impl DifferentialGrowth {
    /// Build a simulation from the given starting points and configuration.
    /// Every starting point becomes a node at rest.
    pub fn new(
        input_points: Vec<Vec2>,
        max_force: i64,
        max_speed: i64,
        desired_separation: i64,
        separation_cohesion_ratio: i64,
        max_edge_len: i64,
    ) -> (g: DifferentialGrowth)
        requires
            input_points@.len() >= 2,
            0 < max_force <= LIMIT_MAX,
            0 < max_speed <= LIMIT_MAX,
            0 < desired_separation <= LIMIT_MAX,
            0 < separation_cohesion_ratio <= RATIO_MAX,
            0 < max_edge_len <= LIMIT_MAX,
            forall|i: int| 0 <= i < input_points@.len() ==> in_world(#[trigger] input_points@[i]@),
        ensures
            sim_ok(g),
            g.nodes@.len() == input_points@.len(),
            forall|i: int|
                0 <= i < g.nodes@.len() ==> (#[trigger] g.nodes@[i]).position
                    == input_points@[i] && g.nodes@[i].velocity@ == (0int, 0int)
                    && g.nodes@[i].acceleration@ == (0int, 0int),
            g.max_force == max_force,
            g.max_speed == max_speed,
            g.desired_separation == desired_separation,
            g.separation_cohesion_ratio == separation_cohesion_ratio,
            g.max_edge_length == max_edge_len,
    {
        let mut nodes: Vec<Node> = Vec::new();
        let n = input_points.len();
        for i in 0..n
            invariant
                n == input_points@.len(),
                0 < max_force <= LIMIT_MAX,
                0 < max_speed <= LIMIT_MAX,
                forall|k: int| 0 <= k < n ==> in_world(#[trigger] input_points@[k]@),
                nodes@.len() == i,
                forall|k: int|
                    0 <= k < i ==> (#[trigger] nodes@[k]).position == input_points@[k]
                        && nodes@[k].velocity@ == (0int, 0int) && nodes@[k].acceleration@ == (
                    0int,
                    0int,
                ) && node_ok(nodes@[k]) && nodes@[k].max_speed == max_speed
                        && nodes@[k].max_force == max_force,
        {
            let node = Node::new(input_points[i], max_speed, max_force);
            nodes.push(node);
        }
        DifferentialGrowth {
            nodes,
            max_force,
            max_speed,
            desired_separation,
            separation_cohesion_ratio,
            max_edge_length: max_edge_len,
        }
    }

    /// The repulsion contribution of `n2` on `n1`: the unit vector from
    /// `n2` to `n1` weighted by the inverse distance (zero for coincident
    /// nodes).
    pub fn get_separation_force(&self, n1: &Node, n2: &Node) -> (steer: Vec2)
        requires
            in_world(n1.position@),
            in_world(n2.position@),
        ensures
            steer@ == sep_contrib(n1.position@, n2.position@),
            -UNIT_SQ <= steer.x <= UNIT_SQ,
            -UNIT_SQ <= steer.y <= UNIT_SQ,
    {
        let q = n1.position;
        let p = n2.position;
        let ddx: i128 = p.x as i128 - q.x as i128;
        let ddy: i128 = p.y as i128 - q.y as i128;
        proof {
            crate::vec2::lemma_sq_bound(ddx as int, 2 * (WORLD_MAX as int));
            crate::vec2::lemma_sq_bound(ddy as int, 2 * (WORLD_MAX as int));
        }
        let dd: i128 = ddx * ddx + ddy * ddy;
        if dd > 0 {
            proof {
                crate::intmath::lemma_abs_le_sq_sum(ddx as int, ddy as int);
                crate::intmath::lemma_abs_le_sq_sum(ddy as int, ddx as int);
                lemma_div_tz_abs_le(
                    (q.x as int - p.x as int) * (UNIT_SQ as int),
                    dd as int,
                    UNIT_SQ as int,
                );
                lemma_div_tz_abs_le(
                    (q.y as int - p.y as int) * (UNIT_SQ as int),
                    dd as int,
                    UNIT_SQ as int,
                );
            }
            let nx: i128 = (q.x as i128 - p.x as i128) * (UNIT_SQ as i128);
            let ny: i128 = (q.y as i128 - p.y as i128) * (UNIT_SQ as i128);
            Vec2 { x: div_trunc(nx, dd) as i64, y: div_trunc(ny, dd) as i64 }
        } else {
            Vec2 { x: 0, y: 0 }
        }
    }

    /// The separation force for every node, computed against one snapshot
    /// of all positions: the spatial index is rebuilt from scratch, queried
    /// once per node, and discarded.
    pub fn get_separation_forces(&self) -> (r: Vec<Vec2>)
        requires
            sim_ok(*self),
        ensures
            r@.len() == self.nodes@.len(),
            forall|i: int|
                0 <= i < r@.len() ==> (#[trigger] r@[i])@ == sep_force(
                    positions(self.nodes@),
                    i,
                    self.nodes@[i].velocity@,
                    self.max_speed as int,
                    self.max_force as int,
                    self.desired_separation as int,
                ),
            forall|i: int|
                0 <= i < r@.len() ==> norm2((#[trigger] r@[i])@) <= self.max_force
                    * self.max_force,
    {
        let ghost ps = positions(self.nodes@);
        let pts = self.get_points();
        let index = kd_build(&pts);
        proof {
            assert(index_points(index) =~= ps);
        }
        let n = self.nodes.len();
        let mut result: Vec<Vec2> = Vec::new();
        for i in 0..n
            invariant
                sim_ok(*self),
                ps == positions(self.nodes@),
                index_points(index) == ps,
                pts@.len() == n,
                forall|k: int| 0 <= k < n ==> (#[trigger] pts@[k])@ == ps[k],
                n == self.nodes@.len(),
                result@.len() == i,
                forall|k: int|
                    0 <= k < i ==> (#[trigger] result@[k])@ == sep_force(
                        ps,
                        k,
                        self.nodes@[k].velocity@,
                        self.max_speed as int,
                        self.max_force as int,
                        self.desired_separation as int,
                    ),
                forall|k: int|
                    0 <= k < i ==> norm2((#[trigger] result@[k])@) <= self.max_force
                        * self.max_force,
        {
            let nodei = self.nodes[i];
            let q = nodei.position;
            proof {
                assert(ps[i as int] == q@);
                assert forall|k: int| 0 <= k < ps.len() implies in_world(#[trigger] ps[k]) by {
                    assert(node_ok(self.nodes@[k]));
                }
            }
            let cl = close_indices(&index, &pts, q, self.desired_separation);
            proof {
                lemma_close_set_props(
                    ps,
                    q@,
                    self.desired_separation as int,
                    ps.len() as int,
                );
            }
            let mut sx: i128 = 0;
            let mut sy: i128 = 0;
            let m = cl.len();
            for j in 0..m
                invariant
                    sim_ok(*self),
                    ps == positions(self.nodes@),
                    n == self.nodes@.len(),
                    i < n,
                    m == cl@.len(),
                    nodei == self.nodes@[i as int],
                    q == nodei.position,
                    q@ == ps[i as int],
                    cl@ == close_set(ps, q@, self.desired_separation as int, ps.len() as int),
                    forall|t: int| 0 <= t < m ==> (#[trigger] cl@[t] as int) < n,
                    (sx as int, sy as int) == sep_sum(ps, q@, cl@, j as int),
                    -(j * (UNIT_SQ as int)) <= sx <= j * (UNIT_SQ as int),
                    -(j * (UNIT_SQ as int)) <= sy <= j * (UNIT_SQ as int),
            {
                let kk = cl[j] as usize;
                let close_node = self.nodes[kk];
                proof {
                    assert(node_ok(self.nodes@[i as int]));
                    assert(node_ok(self.nodes@[kk as int]));
                    assert(ps[kk as int] == close_node.position@);
                }
                let force = self.get_separation_force(&nodei, &close_node);
                proof {
                    assert(j < m);
                    assert(m <= usize::MAX);
                    assert((j + 1) * (UNIT_SQ as int) == j * (UNIT_SQ as int) + (
                    UNIT_SQ as int)) by (nonlinear_arith);
                    assert((j + 1) * (UNIT_SQ as int) <= m * (UNIT_SQ as int)) by {
                        vstd::arithmetic::mul::lemma_mul_inequality(
                            j + 1,
                            m as int,
                            UNIT_SQ as int,
                        );
                    }
                    assert(m * (UNIT_SQ as int) <= 0xffff_ffff_ffff_ffff * 0x10_0000) by {
                        vstd::arithmetic::mul::lemma_mul_inequality(
                            m as int,
                            0xffff_ffff_ffff_ffff,
                            UNIT_SQ as int,
                        );
                    }
                }
                sx = sx + force.x as i128;
                sy = sy + force.y as i128;
                proof {
                    assert((sx as int, sy as int) == sep_sum(ps, q@, cl@, j + 1));
                }
            }
            let avg: Vec2;
            if m > 0 {
                proof {
                    lemma_div_tz_abs_le(sx as int, m as int, UNIT_SQ as int);
                    lemma_div_tz_abs_le(sy as int, m as int, UNIT_SQ as int);
                }
                avg = Vec2 {
                    x: div_trunc(sx, m as i128) as i64,
                    y: div_trunc(sy, m as i128) as i64,
                };
            } else {
                avg = Vec2 { x: sx as i64, y: sy as i64 };
            }
            let sm = crate::vec2::scale_to(avg, self.max_speed);
            let vel = nodei.velocity;
            proof {
                let vx0 = vel.x as int;
                let vy0 = vel.y as int;
                assert(node_ok(self.nodes@[i as int]));
                assert(vx0 * vx0 >= 0) by (nonlinear_arith);
                assert(vy0 * vy0 >= 0) by (nonlinear_arith);
                lemma_abs_le_of_sq_le(vx0, self.max_speed as int);
                lemma_abs_le_of_sq_le(vy0, self.max_speed as int);
            }
            let steer = Vec2 { x: sm.x - vel.x, y: sm.y - vel.y };
            let f = crate::vec2::cap_to(steer, self.max_force);
            proof {
                assert(f@ == sep_force(
                    ps,
                    i as int,
                    self.nodes@[i as int].velocity@,
                    self.max_speed as int,
                    self.max_force as int,
                    self.desired_separation as int,
                ));
            }
            result.push(f);
        }
        result
    }

    /// The cohesion force for every node: each node seeks the midpoint of
    /// its two cyclic neighbors, with exact wraparound at both ends.
    pub fn get_edge_cohesion_forces(&self) -> (r: Vec<Vec2>)
        requires
            sim_ok(*self),
        ensures
            r@.len() == self.nodes@.len(),
            forall|i: int|
                0 <= i < r@.len() ==> (#[trigger] r@[i])@ == coh_force(
                    positions(self.nodes@),
                    i,
                    self.nodes@[i].velocity@,
                    self.max_speed as int,
                    self.max_force as int,
                ),
            forall|i: int|
                0 <= i < r@.len() ==> norm2((#[trigger] r@[i])@) <= self.max_force
                    * self.max_force,
    {
        let ghost ps = positions(self.nodes@);
        let n = self.nodes.len();
        let mut result: Vec<Vec2> = Vec::new();
        for i in 0..n
            invariant
                sim_ok(*self),
                ps == positions(self.nodes@),
                n == self.nodes@.len(),
                result@.len() == i,
                forall|k: int|
                    0 <= k < i ==> (#[trigger] result@[k])@ == coh_force(
                        ps,
                        k,
                        self.nodes@[k].velocity@,
                        self.max_speed as int,
                        self.max_force as int,
                    ),
                forall|k: int|
                    0 <= k < i ==> norm2((#[trigger] result@[k])@) <= self.max_force
                        * self.max_force,
        {
            let prev: usize = if i == 0 {
                n - 1
            } else {
                i - 1
            };
            let next: usize = if i == n - 1 {
                0
            } else {
                i + 1
            };
            let pp = self.nodes[prev].position;
            let np = self.nodes[next].position;
            let sx: i128 = pp.x as i128 + np.x as i128;
            let sy: i128 = pp.y as i128 + np.y as i128;
            proof {
                lemma_div_tz_abs_le(sx as int, 2, WORLD_MAX as int);
                lemma_div_tz_abs_le(sy as int, 2, WORLD_MAX as int);
            }
            let target = Vec2 { x: div_trunc(sx, 2) as i64, y: div_trunc(sy, 2) as i64 };
            let f = self.nodes[i].seek(&target);
            proof {
                assert(target@ == midpoint(ps[prev_idx(i as int, n as int)], ps[next_idx(
                    i as int,
                    n as int,
                )]));
            }
            result.push(f);
        }
        result
    }

    /// The differentiation pass: compute the separation and cohesion forces
    /// of all nodes from the same pre-iteration snapshot, then apply them
    /// and integrate every node.
    pub fn differentiate(&mut self)
        requires
            sim_ok(*old(self)),
        ensures
            sim_ok(*final(self)),
            final(self).nodes@.len() == old(self).nodes@.len(),
            models(final(self).nodes@) == differentiated(
                old(self).nodes@,
                old(self).max_speed as int,
                old(self).max_force as int,
                old(self).separation_cohesion_ratio as int,
                old(self).desired_separation as int,
            ),
            final(self).max_force == old(self).max_force,
            final(self).max_speed == old(self).max_speed,
            final(self).desired_separation == old(self).desired_separation,
            final(self).separation_cohesion_ratio == old(self).separation_cohesion_ratio,
            final(self).max_edge_length == old(self).max_edge_length,
    {
        let ghost goal = differentiated(
            old(self).nodes@,
            old(self).max_speed as int,
            old(self).max_force as int,
            old(self).separation_cohesion_ratio as int,
            old(self).desired_separation as int,
        );
        let separation_forces = self.get_separation_forces();
        let cohesion_forces = self.get_edge_cohesion_forces();
        let n = self.nodes.len();
        let mut new_nodes: Vec<Node> = Vec::new();
        for i in 0..n
            invariant
                sim_ok(*self),
                self == old(self),
                n == self.nodes@.len(),
                separation_forces@.len() == n,
                cohesion_forces@.len() == n,
                forall|k: int|
                    0 <= k < n ==> (#[trigger] separation_forces@[k])@ == sep_force(
                        positions(self.nodes@),
                        k,
                        self.nodes@[k].velocity@,
                        self.max_speed as int,
                        self.max_force as int,
                        self.desired_separation as int,
                    ),
                forall|k: int|
                    0 <= k < n ==> norm2((#[trigger] separation_forces@[k])@) <= self.max_force
                        * self.max_force,
                forall|k: int|
                    0 <= k < n ==> (#[trigger] cohesion_forces@[k])@ == coh_force(
                        positions(self.nodes@),
                        k,
                        self.nodes@[k].velocity@,
                        self.max_speed as int,
                        self.max_force as int,
                    ),
                goal == differentiated(
                    self.nodes@,
                    self.max_speed as int,
                    self.max_force as int,
                    self.separation_cohesion_ratio as int,
                    self.desired_separation as int,
                ),
                new_nodes@.len() == i,
                forall|k: int|
                    0 <= k < i ==> node_m(#[trigger] new_nodes@[k]) == goal[k],
                forall|k: int|
                    0 <= k < i ==> node_ok(#[trigger] new_nodes@[k]) && new_nodes@[k].max_speed
                        == self.max_speed && new_nodes@[k].max_force == self.max_force,
        {
            let sep = separation_forces[i];
            proof {
                let sx0 = sep.x as int;
                let sy0 = sep.y as int;
                assert(sx0 * sx0 >= 0) by (nonlinear_arith);
                assert(sy0 * sy0 >= 0) by (nonlinear_arith);
                lemma_abs_le_of_sq_le(sx0, self.max_force as int);
                lemma_abs_le_of_sq_le(sy0, self.max_force as int);
                crate::intmath::lemma_mul_abs_bound(
                    sx0,
                    LIMIT_MAX as int,
                    self.separation_cohesion_ratio as int,
                    RATIO_MAX as int,
                );
                crate::intmath::lemma_mul_abs_bound(
                    sy0,
                    LIMIT_MAX as int,
                    self.separation_cohesion_ratio as int,
                    RATIO_MAX as int,
                );
            }
            let wx: i128 = sep.x as i128 * self.separation_cohesion_ratio as i128;
            let wy: i128 = sep.y as i128 * self.separation_cohesion_ratio as i128;
            proof {
                lemma_div_tz_abs_le(wx as int, SCALE as int, LIMIT_MAX as int * RATIO_MAX as int);
                lemma_div_tz_abs_le(wy as int, SCALE as int, LIMIT_MAX as int * RATIO_MAX as int);
            }
            let weighted = Vec2 {
                x: div_trunc(wx, SCALE as i128) as i64,
                y: div_trunc(wy, SCALE as i128) as i64,
            };
            let mut node = self.nodes[i];
            node.apply_force(&weighted);
            node.apply_force(&cohesion_forces[i]);
            node.update();
            proof {
                assert(node_m(node) == integrated_node(
                    self.nodes@,
                    i as int,
                    self.max_speed as int,
                    self.max_force as int,
                    self.separation_cohesion_ratio as int,
                    self.desired_separation as int,
                ));
            }
            new_nodes.push(node);
        }
        self.nodes = new_nodes;
        proof {
            assert(models(self.nodes@) =~= goal);
        }
    }

    /// The growth pass: scan every cyclic edge of the current sequence
    /// once, and insert a resting node at the midpoint of each edge whose
    /// length exceeds `max_edge_length` (strictly), immediately after the
    /// edge's first endpoint. The scan reads only the pre-growth sequence,
    /// so insertions never affect which edges subdivide.
    pub fn growth(&mut self)
        requires
            sim_ok(*old(self)),
        ensures
            sim_ok(*final(self)),
            models(final(self).nodes@) == grown(
                models(old(self).nodes@),
                old(self).max_edge_length as int,
            ),
            final(self).nodes@.len() >= old(self).nodes@.len(),
            final(self).max_force == old(self).max_force,
            final(self).max_speed == old(self).max_speed,
            final(self).desired_separation == old(self).desired_separation,
            final(self).separation_cohesion_ratio == old(self).separation_cohesion_ratio,
            final(self).max_edge_length == old(self).max_edge_length,
    {
        let ghost ms = models(old(self).nodes@);
        let ghost el = old(self).max_edge_length as int;
        let n = self.nodes.len();
        let mut out: Vec<Node> = Vec::new();
        for i in 0..n
            invariant
                sim_ok(*self),
                self == old(self),
                ms == models(self.nodes@),
                el == self.max_edge_length as int,
                n == self.nodes@.len(),
                models(out@) =~= grown_prefix(ms, el, i as int),
                out@.len() >= i,
                forall|k: int|
                    0 <= k < out@.len() ==> node_ok(#[trigger] out@[k]) && out@[k].max_speed
                        == self.max_speed && out@[k].max_force == self.max_force,
        {
            let a = self.nodes[i];
            let next: usize = if i == n - 1 {
                0
            } else {
                i + 1
            };
            let b = self.nodes[next];
            out.push(a);
            let ddx: i128 = a.position.x as i128 - b.position.x as i128;
            let ddy: i128 = a.position.y as i128 - b.position.y as i128;
            proof {
                crate::vec2::lemma_sq_bound(ddx as int, 2 * (WORLD_MAX as int));
                crate::vec2::lemma_sq_bound(ddy as int, 2 * (WORLD_MAX as int));
                crate::vec2::lemma_sq_bound(self.max_edge_length as int, LIMIT_MAX as int);
            }
            let dd: i128 = ddx * ddx + ddy * ddy;
            let ell: i128 = self.max_edge_length as i128;
            if dd > ell * ell {
                let sx: i128 = a.position.x as i128 + b.position.x as i128;
                let sy: i128 = a.position.y as i128 + b.position.y as i128;
                proof {
                    lemma_div_tz_abs_le(sx as int, 2, WORLD_MAX as int);
                    lemma_div_tz_abs_le(sy as int, 2, WORLD_MAX as int);
                }
                let mid = Vec2 { x: div_trunc(sx, 2) as i64, y: div_trunc(sy, 2) as i64 };
                let middle_node = Node::new(mid, self.max_speed, self.max_force);
                proof {
                    assert(edge_long(ms, i as int, el));
                    assert(node_m(middle_node) == mid_node(ms, i as int));
                }
                out.push(middle_node);
            } else {
                proof {
                    assert(!edge_long(ms, i as int, el));
                }
            }
            proof {
                assert(models(out@) =~= grown_prefix(ms, el, i + 1));
            }
        }
        self.nodes = out;
    }

    /// Advance the simulation exactly one iteration: differentiate, then
    /// grow. The node count never shrinks, and the whole step equals
    /// `tick_spec` of the previous state.
    pub fn tick(&mut self)
        requires
            sim_ok(*old(self)),
        ensures
            sim_ok(*final(self)),
            models(final(self).nodes@) == tick_spec(
                old(self).nodes@,
                old(self).max_speed as int,
                old(self).max_force as int,
                old(self).separation_cohesion_ratio as int,
                old(self).desired_separation as int,
                old(self).max_edge_length as int,
            ),
            final(self).nodes@.len() >= old(self).nodes@.len(),
            final(self).max_force == old(self).max_force,
            final(self).max_speed == old(self).max_speed,
            final(self).desired_separation == old(self).desired_separation,
            final(self).separation_cohesion_ratio == old(self).separation_cohesion_ratio,
            final(self).max_edge_length == old(self).max_edge_length,
    {
        self.differentiate();
        self.growth();
    }

    /// A fresh sequence of the current node positions, in cyclic order.
    pub fn get_points(&self) -> (r: Vec<Vec2>)
        ensures
            r@.len() == self.nodes@.len(),
            forall|i: int| 0 <= i < r@.len() ==> (#[trigger] r@[i])@ == self.nodes@[i].position@,
    {
        let mut result: Vec<Vec2> = Vec::new();
        let n = self.nodes.len();
        for i in 0..n
            invariant
                n == self.nodes@.len(),
                result@.len() == i,
                forall|k: int|
                    0 <= k < i ==> (#[trigger] result@[k])@ == self.nodes@[k].position@,
        {
            let p = self.nodes[i].position;
            result.push(Vec2 { x: p.x, y: p.y });
        }
        result
    }
}

} // verus!

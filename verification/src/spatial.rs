//! The ephemeral spatial index: a k-d tree over all node positions, rebuilt
//! from scratch every iteration, answering radius queries. The tree itself
//! comes from the `kd_tree` crate and is trusted through the two wrappers
//! below; everything downstream works with the canonical (ascending) list of
//! matching node indices, which `close_indices` produces and proves equal to
//! the spec-level `close_set`. A stored point at distance exactly `radius`
//! counts as a neighbor; since the tree's own query is exclusive, the
//! wrapper is asked for `radius + 1` and a verified filter keeps exactly the
//! points with squared distance at most `radius * radius`.
use vstd::prelude::*;
use vstd::seq_lib::{group_to_multiset_ensures, lemma_sorted_unique};
use vstd::relations::{sorted_by, total_ordering};
use crate::node::in_world;
use crate::vec2::{dist2, Vec2};
use crate::LIMIT_MAX;

verus! {

/// Wraps a k-d tree of `(position, node index)` items. Built once per
/// iteration from a snapshot of all positions and discarded afterwards.
#[verifier::external_body]
pub struct SpatialIndex {
    tree: kd_tree::KdMap<[i64; 2], u64>,
}

/// The positions stored in a spatial index, by the node index each was
/// stored under.
pub uninterp spec fn index_points(t: SpatialIndex) -> Seq<(int, int)>;

/// Relies on `kd_tree::KdTreeN::build`: the tree stores exactly the items it
/// is given (it only reorders them internally).
#[verifier::external_body]
pub fn kd_build(pts: &Vec<Vec2>) -> (t: SpatialIndex)
    ensures
        index_points(t) == pts@.map(|i: int, p: Vec2| p@),
{
    let items: Vec<([i64; 2], u64)> = pts
        .iter()
        .enumerate()
        .map(|(i, p)| ([p.x, p.y], i as u64))
        .collect();
    SpatialIndex { tree: kd_tree::KdTree::build(items) }
}

/// Relies on `kd_tree::KdSliceN::within_radius`: it returns exactly the
/// stored items whose squared Euclidean distance to the query point is
/// strictly below `radius * radius`, each stored item at most once, in an
/// unspecified order. The world bounds keep the tree's internal `i64`
/// distance arithmetic exact.
#[verifier::external_body]
fn kd_within_radius(t: &SpatialIndex, q: Vec2, radius: i64) -> (out: Vec<u64>)
    requires
        forall|k: int| 0 <= k < index_points(*t).len() ==> in_world(index_points(*t)[k]),
        in_world(q@),
        0 < radius <= LIMIT_MAX + 1,
        index_points(*t).len() <= usize::MAX,
    ensures
        forall|j: int| 0 <= j < out@.len() ==> (out@[j] as int) < index_points(*t).len(),
        forall|j: int|
            0 <= j < out@.len() ==> dist2(index_points(*t)[out@[j] as int], q@) < radius * radius,
        forall|k: int|
            0 <= k < index_points(*t).len() && dist2(index_points(*t)[k], q@) < radius * radius
                ==> out@.contains(k as u64),
        out@.no_duplicates(),
{
    t.tree
        .within_radius(&[q.x, q.y], radius)
        .into_iter()
        .map(|item| item.1)
        .collect()
}

/// The canonical neighborhood of `q`: the ascending list of indices `k < n`
/// whose stored position is within distance `r` of `q`, boundary included.
pub open spec fn close_set(ps: Seq<(int, int)>, q: (int, int), r: int, n: int) -> Seq<u64>
    decreases n,
{
    if n <= 0 {
        Seq::empty()
    } else {
        let rest = close_set(ps, q, r, n - 1);
        if dist2(ps[n - 1], q) <= r * r {
            rest.push((n - 1) as u64)
        } else {
            rest
        }
    }
}

/// A strictly ascending sequence of indices.
pub open spec fn ascending(s: Seq<u64>) -> bool {
    forall|i: int, j: int| 0 <= i < j < s.len() ==> s[i] < s[j]
}

/// Shape of the canonical neighborhood: every entry is a matching index
/// below `n`, the list is strictly ascending (hence duplicate-free), and it
/// contains every matching index.
pub proof fn lemma_close_set_props(ps: Seq<(int, int)>, q: (int, int), r: int, n: int)
    requires
        0 <= n <= u64::MAX,
    ensures
        forall|j: int|
            0 <= j < close_set(ps, q, r, n).len() ==> (#[trigger] close_set(ps, q, r, n)[j]
                as int) < n,
        ascending(close_set(ps, q, r, n)),
        close_set(ps, q, r, n).no_duplicates(),
        forall|k: u64|
            #[trigger] close_set(ps, q, r, n).contains(k) <==> (k as int) < n && dist2(
                ps[k as int],
                q,
            ) <= r * r,
    decreases n,
{
    let cs = close_set(ps, q, r, n);
    if n <= 0 {
        assert(cs =~= Seq::<u64>::empty());
    } else {
        lemma_close_set_props(ps, q, r, n - 1);
        let rest = close_set(ps, q, r, n - 1);
        if dist2(ps[n - 1], q) <= r * r {
            assert(cs == rest.push((n - 1) as u64));
            assert forall|k: u64| #[trigger] cs.contains(k) implies (k as int) < n && dist2(
                ps[k as int],
                q,
            ) <= r * r by {
                if k != ((n - 1) as u64) {
                    assert(rest.contains(k));
                }
            }
            assert forall|k: u64| (k as int) < n && dist2(ps[k as int], q) <= r * r implies cs
                .contains(k) by {
                if (k as int) < n - 1 {
                    assert(rest.contains(k));
                    let j = choose|j: int| 0 <= j < rest.len() && rest[j] == k;
                    assert(cs[j] == k);
                } else {
                    assert(cs[cs.len() - 1] == k);
                }
            }
            assert forall|i: int, j: int| 0 <= i < j < cs.len() implies cs[i] < cs[j] by {
                if j < cs.len() - 1 {
                    assert(rest[i] < rest[j]);
                } else {
                    assert((cs[i] as int) < n - 1);
                }
            }
            assert(cs.no_duplicates());
        } else {
            assert(cs == rest);
            assert forall|k: u64| (k as int) < n && dist2(ps[k as int], q) <= r * r implies cs
                .contains(k) by {
                assert((k as int) < n - 1);
            }
        }
    }
}

/// Two duplicate-free sequences with the same members carry the same
/// multiset.
proof fn lemma_no_dup_same_members_multiset(a: Seq<u64>, b: Seq<u64>)
    requires
        a.no_duplicates(),
        b.no_duplicates(),
        forall|k: u64| a.contains(k) <==> b.contains(k),
    ensures
        a.to_multiset() =~= b.to_multiset(),
{
    broadcast use group_to_multiset_ensures;

    a.lemma_multiset_has_no_duplicates();
    b.lemma_multiset_has_no_duplicates();
    assert forall|x: u64| a.to_multiset().count(x) == b.to_multiset().count(x) by {
        assert(a.contains(x) <==> a.to_multiset().count(x) > 0);
        assert(b.contains(x) <==> b.to_multiset().count(x) > 0);
    }
}

/// Insert each element into its place in a fresh vector, keeping it sorted.
fn sort_indices(v: &Vec<u64>) -> (out: Vec<u64>)
    ensures
        out@.to_multiset() == v@.to_multiset(),
        forall|i: int, j: int| 0 <= i < j < out@.len() ==> out@[i] <= out@[j],
{
    broadcast use vstd::seq_lib::to_multiset_insert;
    broadcast use vstd::seq_lib::to_multiset_build;

    let mut out: Vec<u64> = Vec::new();
    proof {
        assert(v@.take(0) =~= Seq::<u64>::empty());
        assert(out@.to_multiset() =~= v@.take(0).to_multiset());
    }
    for i in 0..v.len()
        invariant
            out@.to_multiset() == v@.take(i as int).to_multiset(),
            forall|a: int, b: int| 0 <= a < b < out@.len() ==> out@[a] <= out@[b],
    {
        let x = v[i];
        let mut p: usize = 0;
        while p < out.len() && out[p] < x
            invariant
                p <= out@.len(),
                forall|j: int| 0 <= j < p ==> #[trigger] out@[j] < x,
                forall|a: int, b: int| 0 <= a < b < out@.len() ==> out@[a] <= out@[b],
            decreases out@.len() - p,
        {
            p = p + 1;
        }
        proof {
            assert forall|j: int| p <= j < out@.len() implies x <= #[trigger] out@[j] by {
                if p < out@.len() {
                    assert(out@[p as int] <= out@[j]);
                }
            }
        }
        let ghost out0 = out@;
        out.insert(p, x);
        proof {
            out0.insert_ensures(p as int, x);
            assert(out@ == out0.insert(p as int, x));
            vstd::seq_lib::to_multiset_insert(out0, p as int, x);
            assert(v@.take(i + 1) =~= v@.take(i as int).push(v@[i as int]));
            vstd::seq_lib::to_multiset_build(v@.take(i as int), v@[i as int]);
            assert forall|a: int, b: int| 0 <= a < b < out@.len() implies out@[a] <= out@[b] by {
                if b < p {
                    assert(out@[a] == out0[a] && out@[b] == out0[b]);
                } else if a < p && b == p {
                    assert(out@[a] == out0[a] && out@[b] == x);
                } else if a < p && b > p {
                    assert(out@[a] == out0[a] && out@[b] == out0[b - 1]);
                } else if a == p {
                    assert(out@[a] == x && out@[b] == out0[b - 1]);
                } else {
                    assert(out@[a] == out0[a - 1] && out@[b] == out0[b - 1]);
                }
            }
        }
    }
    proof {
        assert(v@.take(v@.len() as int) =~= v@);
    }
    out
}

/// The neighborhood query: all node indices whose stored position lies
/// within `radius` of `q` (boundary included), as the canonical ascending
/// list. The tree's own query is exclusive, so it is asked for `radius + 1`
/// and a verified filter keeps exactly the indices with squared distance at
/// most `radius * radius` (distances between integer points are themselves
/// integers, so nothing strictly between `radius` and `radius + 1` exists).
pub fn close_indices(t: &SpatialIndex, pts: &Vec<Vec2>, q: Vec2, radius: i64) -> (out: Vec<u64>)
    requires
        pts@.len() == index_points(*t).len(),
        forall|k: int| 0 <= k < pts@.len() ==> (#[trigger] pts@[k])@ == index_points(*t)[k],
        forall|k: int| 0 <= k < index_points(*t).len() ==> in_world(index_points(*t)[k]),
        in_world(q@),
        0 < radius <= LIMIT_MAX,
        index_points(*t).len() <= usize::MAX,
    ensures
        out@ == close_set(
            index_points(*t),
            q@,
            radius as int,
            index_points(*t).len() as int,
        ),
{
    let ghost ps = index_points(*t);
    let ghost n = ps.len() as int;
    proof {
        assert((radius as int) * (radius as int) < (radius as int + 1) * (radius as int + 1))
            by (nonlinear_arith)
            requires radius >= 0;
    }
    let raw = kd_within_radius(t, q, radius + 1);
    let mut kept: Vec<u64> = Vec::new();
    let rlen = raw.len();
    proof {
        assert(raw@.take(0) =~= Seq::<u64>::empty());
    }
    for j in 0..rlen
        invariant
            ps == index_points(*t),
            n == ps.len() as int,
            n <= usize::MAX,
            pts@.len() == n,
            forall|k: int| 0 <= k < n ==> (#[trigger] pts@[k])@ == ps[k],
            forall|k: int| 0 <= k < n ==> in_world(#[trigger] ps[k]),
            in_world(q@),
            0 < radius <= LIMIT_MAX,
            rlen == raw@.len(),
            raw@.no_duplicates(),
            forall|t2: int| 0 <= t2 < rlen ==> (#[trigger] raw@[t2] as int) < n,
            kept@.no_duplicates(),
            forall|x: u64|
                #[trigger] kept@.contains(x) <==> (raw@.take(j as int).contains(x) && dist2(
                    ps[x as int],
                    q@,
                ) <= (radius as int) * (radius as int)),
            forall|t2: int| 0 <= t2 < kept@.len() ==> (#[trigger] kept@[t2] as int) < n,
    {
        proof {
            assert((raw@[j as int] as int) < n);
        }
        let kk = raw[j] as usize;
        let p = pts[kk];
        proof {
            assert(pts@[kk as int]@ == ps[kk as int]);
        }
        let ddx: i128 = p.x as i128 - q.x as i128;
        let ddy: i128 = p.y as i128 - q.y as i128;
        proof {
            crate::vec2::lemma_sq_bound(ddx as int, 2 * (crate::WORLD_MAX as int));
            crate::vec2::lemma_sq_bound(ddy as int, 2 * (crate::WORLD_MAX as int));
            crate::vec2::lemma_sq_bound(radius as int, LIMIT_MAX as int);
        }
        let dd: i128 = ddx * ddx + ddy * ddy;
        let ghost kept0 = kept@;
        let ghost rr = (radius as int) * (radius as int);
        proof {
            assert(dd as int == dist2(ps[raw@[j as int] as int], q@));
            assert(raw@.take(j + 1) =~= raw@.take(j as int).push(raw@[j as int]));
        }
        if dd <= (radius as i128) * (radius as i128) {
            proof {
                if kept@.contains(raw@[j as int]) {
                    let u = choose|u: int|
                        0 <= u < j && #[trigger] raw@.take(j as int)[u] == raw@[j as int];
                    assert(raw@[u] == raw@[j as int]);
                    assert(false);
                }
            }
            kept.push(raw[j]);
            proof {
                assert(kept@ == kept0.push(raw@[j as int]));
                assert forall|x: u64| #[trigger] kept@.contains(x) implies (raw@.take(
                    j + 1,
                ).contains(x) && dist2(ps[x as int], q@) <= rr) by {
                    let u0 = choose|u: int| 0 <= u < kept@.len() && #[trigger] kept@[u] == x;
                    if u0 < kept0.len() {
                        assert(kept0[u0] == x);
                        assert(kept0.contains(x));
                        let w = choose|w: int|
                            0 <= w < j && #[trigger] raw@.take(j as int)[w] == x;
                        assert(raw@.take(j + 1)[w] == x);
                    } else {
                        assert(x == raw@[j as int]);
                        assert(raw@.take(j + 1)[j as int] == x);
                    }
                }
                assert forall|x: u64| (raw@.take(j + 1).contains(x) && dist2(ps[x as int], q@)
                    <= rr) implies #[trigger] kept@.contains(x) by {
                    let w = choose|w: int|
                        0 <= w < j + 1 && #[trigger] raw@.take(j + 1)[w] == x;
                    if w < j {
                        assert(raw@.take(j as int)[w] == x);
                        assert(kept0.contains(x));
                        let u = choose|u: int| 0 <= u < kept0.len() && #[trigger] kept0[u] == x;
                        assert(kept@[u] == x);
                    } else {
                        assert(x == raw@[j as int]);
                        assert(kept@[kept0.len() as int] == x);
                    }
                }
            }
        } else {
            proof {
                assert(kept@ == kept0);
                assert forall|x: u64| #[trigger] kept@.contains(x) implies (raw@.take(
                    j + 1,
                ).contains(x) && dist2(ps[x as int], q@) <= rr) by {
                    assert(kept0.contains(x));
                    let w = choose|w: int|
                        0 <= w < j && #[trigger] raw@.take(j as int)[w] == x;
                    assert(raw@.take(j + 1)[w] == x);
                }
                assert forall|x: u64| (raw@.take(j + 1).contains(x) && dist2(ps[x as int], q@)
                    <= rr) implies #[trigger] kept@.contains(x) by {
                    let w = choose|w: int|
                        0 <= w < j + 1 && #[trigger] raw@.take(j + 1)[w] == x;
                    if w < j {
                        assert(raw@.take(j as int)[w] == x);
                        assert(kept0.contains(x));
                    } else {
                        assert(x == raw@[j as int]);
                        assert(dist2(ps[x as int], q@) > rr);
                        assert(false);
                    }
                }
            }
        }
    }
    proof {
        assert(raw@.take(rlen as int) =~= raw@);
    }
    let out = sort_indices(&kept);
    proof {
        broadcast use group_to_multiset_ensures;

        let cs = close_set(ps, q@, radius as int, n);
        lemma_close_set_props(ps, q@, radius as int, n);
        kept@.lemma_multiset_has_no_duplicates();
        out@.lemma_multiset_has_no_duplicates_conv();
        assert forall|k: u64| out@.contains(k) <==> kept@.contains(k) by {
            assert(out@.contains(k) <==> out@.to_multiset().count(k) > 0);
            assert(kept@.contains(k) <==> kept@.to_multiset().count(k) > 0);
        }
        assert forall|k: u64| kept@.contains(k) <==> cs.contains(k) by {
            if (k as int) < n && dist2(ps[k as int], q@) <= (radius as int) * (radius as int) {
                assert(dist2(ps[k as int], q@) < (radius as int + 1) * (radius as int + 1));
                assert(raw@.contains(k));
            }
        }
        lemma_no_dup_same_members_multiset(out@, cs);
        let leq = |a: u64, b: u64| a <= b;
        assert(total_ordering(leq));
        assert(sorted_by(out@, leq)) by {
            assert forall|i: int, j: int| 0 <= i < j < out@.len() implies #[trigger] leq(
                out@[i],
                out@[j],
            ) by {
                assert(out@[i] <= out@[j]);
            }
        }
        assert(sorted_by(cs, leq)) by {
            assert forall|i: int, j: int| 0 <= i < j < cs.len() implies #[trigger] leq(
                cs[i],
                cs[j],
            ) by {
                assert(cs[i] < cs[j]);
            }
        }
        lemma_sorted_unique(out@, cs, leq);
        assert(out@ =~= cs);
    }
    out
}

} // verus!

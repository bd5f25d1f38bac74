//! Plane vectors with `i64` fixed-point components, and the exact integer
//! versions of the steering-vector operations: rescaling a vector to a target
//! magnitude and capping a vector at a maximum magnitude.
use vstd::prelude::*;
use vstd::arithmetic::div_mod::{lemma_div_is_ordered, lemma_div_multiples_vanish};
use vstd::arithmetic::mul::{lemma_mul_inequality, lemma_mul_upper_bound};
use crate::intmath::{
    ceil_sqrt, clamp_sym, div_tz, lemma_abs_le_of_sq_le, lemma_div_mul_le, lemma_scale_norm,
    lemma_sqrt_ceil_bounds, sqrt_ceil,
};
use crate::{COMP_MAX, LIMIT_MAX};

verus! {

/// A 2D point or vector, in raw fixed-point ticks.
#[derive(Clone, Copy, PartialEq, Eq, Structural, Debug)]
pub struct Vec2 {
    pub x: i64,
    pub y: i64,
}

impl View for Vec2 {
    type V = (int, int);

    open spec fn view(&self) -> (int, int) {
        (self.x as int, self.y as int)
    }
}

impl Vec2 {
    pub fn new(x: i64, y: i64) -> (r: Vec2)
        ensures
            r@ == (x as int, y as int),
    {
        Vec2 { x, y }
    }
}

/// Squared Euclidean norm.
pub open spec fn norm2(v: (int, int)) -> int {
    v.0 * v.0 + v.1 * v.1
}

/// Squared Euclidean distance.
pub open spec fn dist2(a: (int, int), b: (int, int)) -> int {
    (a.0 - b.0) * (a.0 - b.0) + (a.1 - b.1) * (a.1 - b.1)
}

pub open spec fn vadd(a: (int, int), b: (int, int)) -> (int, int) {
    (a.0 + b.0, a.1 + b.1)
}

pub open spec fn vsub(a: (int, int), b: (int, int)) -> (int, int) {
    (a.0 - b.0, a.1 - b.1)
}

/// Rescale `v` to magnitude `t` (zero vectors stay zero): each component is
/// multiplied by `t` and divided, rounding toward zero, by the ceiling of
/// the norm, so the result's magnitude never exceeds `t`.
pub open spec fn scale_spec(v: (int, int), t: int) -> (int, int) {
    if norm2(v) == 0 {
        (0, 0)
    } else {
        let m = sqrt_ceil(norm2(v));
        (div_tz(v.0 * t, m), div_tz(v.1 * t, m))
    }
}

/// Cap `v` at magnitude `c`: vectors already within the cap are unchanged.
pub open spec fn cap_spec(v: (int, int), c: int) -> (int, int) {
    if norm2(v) <= c * c {
        v
    } else {
        scale_spec(v, c)
    }
}

pub proof fn lemma_sq_bound(x: int, a: int)
    by (nonlinear_arith)
    requires
        -a <= x <= a,
    ensures
        0 <= x * x <= a * a,
{
}

/// Exact norms are preserved by negating components.
proof fn lemma_neg_sq(x: int)
    by (nonlinear_arith)
    ensures
        (-x) * (-x) == x * x,
{
}

/// Rescale `v` to magnitude `t`, rounding toward zero; exactly `scale_spec`.
pub fn scale_to(v: Vec2, t: i64) -> (r: Vec2)
    requires
        0 <= t <= LIMIT_MAX,
        -COMP_MAX <= v.x <= COMP_MAX,
        -COMP_MAX <= v.y <= COMP_MAX,
    ensures
        r@ == scale_spec(v@, t as int),
        norm2(r@) <= t * t,
        -t <= r.x <= t,
        -t <= r.y <= t,
{
    let xi: i128 = v.x as i128;
    let yi: i128 = v.y as i128;
    proof {
        lemma_sq_bound(xi as int, COMP_MAX as int);
        lemma_sq_bound(yi as int, COMP_MAX as int);
    }
    let n2: i128 = xi * xi + yi * yi;
    if n2 == 0 {
        proof {
            assert(t as int * t as int >= 0) by (nonlinear_arith);
            assert(norm2((0int, 0int)) == 0);
        }
        return Vec2 { x: 0, y: 0 };
    }
    proof {
        lemma_sqrt_ceil_bounds(n2 as int);
    }
    let m: u64 = ceil_sqrt(n2 as u128);
    let ax: u128 = if v.x < 0 {
        (-xi) as u128
    } else {
        xi as u128
    };
    let ay: u128 = if v.y < 0 {
        (-yi) as u128
    } else {
        yi as u128
    };
    proof {
        // |x|^2 == x^2, so each |component| is at most the norm ceiling m.
        lemma_neg_sq(xi as int);
        lemma_neg_sq(yi as int);
        lemma_abs_le_of_sq_le(ax as int, m as int);
        lemma_abs_le_of_sq_le(ay as int, m as int);
        lemma_mul_upper_bound(ax as int, m as int, t as int, LIMIT_MAX as int);
        lemma_mul_upper_bound(ay as int, m as int, t as int, LIMIT_MAX as int);
        // (a * t) / m <= t, since a <= m.
        lemma_mul_inequality(ax as int, m as int, t as int);
        lemma_mul_inequality(ay as int, m as int, t as int);
        lemma_div_is_ordered(ax as int * t as int, m as int * t as int, m as int);
        lemma_div_is_ordered(ay as int * t as int, m as int * t as int, m as int);
        lemma_div_multiples_vanish(t as int, m as int);
        lemma_div_mul_le(ax as int * t as int, m as int);
        lemma_div_mul_le(ay as int * t as int, m as int);
        lemma_scale_norm(
            ax as int,
            ay as int,
            t as int,
            m as int,
            (ax as int * t as int) / (m as int),
            (ay as int * t as int) / (m as int),
        );
        assert((-(v.x as int)) * (t as int) == -((v.x as int) * (t as int))) by (nonlinear_arith);
        assert((-(v.y as int)) * (t as int) == -((v.y as int) * (t as int))) by (nonlinear_arith);
    }
    let sx: u128 = ax * (t as u128) / (m as u128);
    let sy: u128 = ay * (t as u128) / (m as u128);
    let rx: i64 = if v.x < 0 {
        -(sx as i64)
    } else {
        sx as i64
    };
    let ry: i64 = if v.y < 0 {
        -(sy as i64)
    } else {
        sy as i64
    };
    proof {
        lemma_neg_sq(sx as int);
        lemma_neg_sq(sy as int);
    }
    Vec2 { x: rx, y: ry }
}

/// Cap `v` at magnitude `c`; exactly `cap_spec`.
pub fn cap_to(v: Vec2, c: i64) -> (r: Vec2)
    requires
        0 <= c <= LIMIT_MAX,
        -COMP_MAX <= v.x <= COMP_MAX,
        -COMP_MAX <= v.y <= COMP_MAX,
    ensures
        r@ == cap_spec(v@, c as int),
        norm2(r@) <= c * c,
        -c <= r.x <= c,
        -c <= r.y <= c,
{
    let xi: i128 = v.x as i128;
    let yi: i128 = v.y as i128;
    proof {
        lemma_sq_bound(xi as int, COMP_MAX as int);
        lemma_sq_bound(yi as int, COMP_MAX as int);
        lemma_sq_bound(c as int, LIMIT_MAX as int);
    }
    let n2: i128 = xi * xi + yi * yi;
    if n2 <= (c as i128) * (c as i128) {
        proof {
            lemma_abs_le_of_sq_le(v.x as int, c as int);
            lemma_abs_le_of_sq_le(v.y as int, c as int);
        }
        v
    } else {
        scale_to(v, c)
    }
}

} // verus!

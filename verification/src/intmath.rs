//! Exact integer arithmetic primitives: truncating division, symmetric
//! clamping, and integer square roots (floor and ceiling), each pinned to a
//! spec-level definition.
use vstd::prelude::*;
use vstd::arithmetic::div_mod::{
    lemma_div_is_ordered, lemma_div_multiples_vanish, lemma_div_pos_is_pos,
    lemma_fundamental_div_mod,
};
use vstd::arithmetic::mul::lemma_mul_upper_bound;

verus! {

/// Division that rounds toward zero, for a positive divisor.
pub open spec fn div_tz(a: int, b: int) -> int
    recommends
        b > 0,
{
    if a >= 0 {
        a / b
    } else {
        -((-a) / b)
    }
}

/// Clamp `x` into the symmetric interval `[-b, b]`.
pub open spec fn clamp_sym(x: int, b: int) -> int
    recommends
        b >= 0,
{
    if x > b {
        b
    } else if x < -b {
        -b
    } else {
        x
    }
}

/// Largest `r >= 0` with `r * r <= n` (and `0` for negative `n`).
pub open spec fn sqrt_floor(n: int) -> int
    decreases n,
{
    if n <= 0 {
        0
    } else {
        let p = sqrt_floor(n - 1);
        if (p + 1) * (p + 1) <= n {
            p + 1
        } else {
            p
        }
    }
}

/// Smallest `r >= 0` with `r * r >= n`.
pub open spec fn sqrt_ceil(n: int) -> int {
    let f = sqrt_floor(n);
    if f * f == n {
        f
    } else {
        f + 1
    }
}

pub proof fn lemma_sq_mono(a: int, b: int)
    by (nonlinear_arith)
    requires
        0 <= a <= b,
    ensures
        a * a <= b * b,
{
}

/// A bound on a square bounds the absolute value.
pub proof fn lemma_abs_le_of_sq_le(x: int, m: int)
    by (nonlinear_arith)
    requires
        0 <= m,
        x * x <= m * m,
    ensures
        -m <= x <= m,
{
}

pub proof fn lemma_sqrt_floor_bounds(n: int)
    requires
        n >= 0,
    ensures
        sqrt_floor(n) >= 0,
        sqrt_floor(n) * sqrt_floor(n) <= n,
        n < ((sqrt_floor(n) + 1) * (sqrt_floor(n) + 1)),
    decreases n,
{
    if n == 0 {
        assert(sqrt_floor(0) == 0);
    } else {
        lemma_sqrt_floor_bounds(n - 1);
        let p = sqrt_floor(n - 1);
        if (p + 1) * (p + 1) <= n {
            // Here sqrt_floor(n) == p + 1; since n - 1 < (p + 1)^2 we get
            // n == (p + 1)^2, and (p + 2)^2 > n follows.
            assert(n == (p + 1) * (p + 1));
            assert((p + 2) * (p + 2) > (p + 1) * (p + 1)) by (nonlinear_arith)
                requires p >= 0;
        } else {
            assert(sqrt_floor(n) == p);
        }
    }
}

pub proof fn lemma_sqrt_floor_unique(n: int, r: int)
    requires
        n >= 0,
        r >= 0,
        r * r <= n,
        n < ((r + 1) * (r + 1)),
    ensures
        r == sqrt_floor(n),
{
    lemma_sqrt_floor_bounds(n);
    let f = sqrt_floor(n);
    if r < f {
        lemma_sq_mono(r + 1, f);
        assert(f * f <= n);
        assert(false);
    } else if f < r {
        lemma_sq_mono(f + 1, r);
        assert(r * r <= n);
        assert(false);
    }
}

pub proof fn lemma_sqrt_ceil_bounds(n: int)
    requires
        n >= 0,
    ensures
        sqrt_ceil(n) >= 0,
        sqrt_ceil(n) * sqrt_ceil(n) >= n,
        n > 0 ==> sqrt_ceil(n) >= 1,
        n == 0 ==> sqrt_ceil(n) == 0,
{
    lemma_sqrt_floor_bounds(n);
    let f = sqrt_floor(n);
    if n > 0 && f * f == n {
        assert(f != 0);
    }
}

/// Floor of the integer square root, by binary search.
pub fn isqrt(n: u128) -> (r: u64)
    ensures
        r as int * r as int <= n as int,
        (n as int) < ((r as int + 1) * (r as int + 1)),
        r as int == sqrt_floor(n as int),
{
    let mut lo: u64 = 0;
    let mut hi: u64 = u64::MAX;
    while lo < hi
        invariant
            lo <= hi,
            lo as int * lo as int <= n as int,
            (n as int) < ((hi as int + 1) * (hi as int + 1)),
        decreases hi as int - lo as int,
    {
        let mid: u64 = lo + (hi - lo) / 2 + 1;
        proof {
            lemma_mul_upper_bound(mid as int, u64::MAX as int, mid as int, u64::MAX as int);
        }
        let sq: u128 = (mid as u128) * (mid as u128);
        if sq <= n {
            lo = mid;
        } else {
            hi = mid - 1;
        }
    }
    proof {
        lemma_sqrt_floor_unique(n as int, lo as int);
    }
    lo
}

/// Ceiling of the integer square root.
pub fn ceil_sqrt(n: u128) -> (r: u64)
    requires
        n < 0x1000_0000_0000_0000_0000_0000_0000_0000u128,
    ensures
        r as int == sqrt_ceil(n as int),
        r as int * r as int >= n as int,
        n > 0 ==> r >= 1,
        n == 0 ==> r == 0,
{
    proof {
        lemma_sqrt_ceil_bounds(n as int);
    }
    let f = isqrt(n);
    let fsq: u128 = (f as u128) * (f as u128);
    if fsq == n {
        f
    } else {
        proof {
            // f * f <= n < 2^124, so f < 2^62 and f + 1 fits in u64.
            if f as int >= 0x4000_0000_0000_0000int {
                lemma_sq_mono(0x4000_0000_0000_0000int, f as int);
                assert(false);
            }
        }
        f + 1
    }
}

/// Division rounding toward zero, exactly `div_tz`.
pub fn div_trunc(a: i128, b: i128) -> (r: i128)
    requires
        b > 0,
        a != i128::MIN,
    ensures
        r as int == div_tz(a as int, b as int),
        a >= 0 ==> 0 <= r <= a,
        a < 0 ==> a <= r <= 0,
{
    if a >= 0 {
        let q: u128 = (a as u128) / (b as u128);
        proof {
            lemma_div_pos_is_pos(a as int, b as int);
            vstd::arithmetic::div_mod::lemma_div_is_ordered_by_denominator(a as int, 1, b as int);
            vstd::arithmetic::div_mod::lemma_div_basics(a as int);
        }
        q as i128
    } else {
        let m: u128 = ((-a) as u128) / (b as u128);
        proof {
            lemma_div_pos_is_pos((-a) as int, b as int);
            vstd::arithmetic::div_mod::lemma_div_is_ordered_by_denominator((-a) as int, 1, b as int);
            vstd::arithmetic::div_mod::lemma_div_basics((-a) as int);
        }
        -(m as i128)
    }
}

/// If `|a| <= c * b` then `|div_tz(a, b)| <= c`.
pub proof fn lemma_div_tz_abs_le(a: int, b: int, c: int)
    requires
        b > 0,
        c >= 0,
        -(c * b) <= a <= c * b,
    ensures
        -c <= div_tz(a, b) <= c,
{
    assert(c * b == b * c) by (nonlinear_arith);
    if a >= 0 {
        lemma_div_is_ordered(a, b * c, b);
        lemma_div_multiples_vanish(c, b);
        lemma_div_pos_is_pos(a, b);
    } else {
        lemma_div_is_ordered(-a, b * c, b);
        lemma_div_multiples_vanish(c, b);
        lemma_div_pos_is_pos(-a, b);
    }
}

/// The quotient times the divisor does not exceed the dividend.
pub proof fn lemma_div_mul_le(a: int, b: int)
    requires
        a >= 0,
        b > 0,
    ensures
        (a / b) * b <= a,
        a / b >= 0,
{
    lemma_fundamental_div_mod(a, b);
    vstd::arithmetic::div_mod::lemma_mod_division_less_than_divisor(a, b);
    lemma_div_pos_is_pos(a, b);
    assert((a / b) * b == b * (a / b)) by (nonlinear_arith);
}

/// An integer component is bounded in absolute value by any sum of squares
/// that includes its own.
pub proof fn lemma_abs_le_sq_sum(x: int, y: int)
    by (nonlinear_arith)
    ensures
        -(x * x + y * y) <= x <= x * x + y * y,
{
}

/// Symmetric bound on a product from symmetric bounds on its factors.
pub proof fn lemma_mul_abs_bound(x: int, a: int, y: int, b: int)
    by (nonlinear_arith)
    requires
        -a <= x <= a,
        0 <= y <= b,
        0 <= a,
    ensures
        -(a * b) <= x * y <= a * b,
{
}

/// Scaling the components of a vector of norm at most `m` by `c/m`
/// yields a vector of norm at most `c`.
pub proof fn lemma_scale_norm(a: int, b: int, c: int, m: int, ca: int, cb: int)
    by (nonlinear_arith)
    requires
        0 <= a,
        0 <= b,
        0 <= c,
        0 < m,
        a * a + b * b <= m * m,
        0 <= ca,
        ca * m <= a * c,
        0 <= cb,
        cb * m <= b * c,
    ensures
        ca * ca + cb * cb <= c * c,
        ca <= c,
        cb <= c,
{
}

} // verus!

//! Q16.16 fixed-point scalar arithmetic: truncated division, square roots
//! and the bounds that keep every product of the renderer inside `i128`.

use vstd::prelude::*;

verus! {

/// One world unit in fixed-point representation.
pub const SCALE: i64 = 65536;

/// The bias 0.001 in fixed-point units, used to inflate bounding boxes.
pub const EPS_FX: i64 = 65;

/// Largest magnitude allowed for a scene coordinate (1024 world units).
pub const GEOM_MAX: i64 = 67108864;

/// Largest magnitude allowed for a ray origin or direction component.
pub const RAY_MAX: i64 = 268435456;

/// An effectively infinite ray parameter: every real hit lies below it.
pub const T_FAR: i64 = i64::MAX;

/// Division truncated toward zero, defined for positive divisors.
pub open spec fn sdiv(a: int, b: int) -> int {
    if a >= 0 {
        a / b
    } else {
        -((-a) / b)
    }
}

/// The floor of the square root, as a recursive definition.
pub open spec fn spec_isqrt(n: int) -> int
    decreases n,
{
    if n <= 0 {
        0
    } else {
        let r = spec_isqrt(n - 1);
        if (r + 1) * (r + 1) <= n {
            r + 1
        } else {
            r
        }
    }
}

pub proof fn lemma_isqrt_bounds(n: int)
    requires
        n >= 0,
    ensures
        0 <= spec_isqrt(n),
        spec_isqrt(n) * spec_isqrt(n) <= n,
        n < (spec_isqrt(n) + 1) * (spec_isqrt(n) + 1),
    decreases n,
{
    if n == 0 {
    } else {
        lemma_isqrt_bounds(n - 1);
        let r = spec_isqrt(n - 1);
        if (r + 1) * (r + 1) <= n {
            assert(n < (r + 2) * (r + 2)) by (nonlinear_arith)
                requires
                    n - 1 < (r + 1) * (r + 1),
                    0 <= r,
            ;
        }
    }
}

/// The floor of the square root is the unique integer whose square brackets `n`.
pub proof fn lemma_isqrt_unique(n: int, r: int)
    requires
        n >= 0,
        0 <= r,
        r * r <= n,
        n < (r + 1) * (r + 1),
    ensures
        r == spec_isqrt(n),
{
    lemma_isqrt_bounds(n);
    let s = spec_isqrt(n);
    if r < s {
        assert(false) by (nonlinear_arith)
            requires
                0 <= r,
                0 <= s,
                r < s,
                s * s <= n,
                n < (r + 1) * (r + 1),
        ;
    }
    if s < r {
        assert(false) by (nonlinear_arith)
            requires
                0 <= r,
                0 <= s,
                s < r,
                r * r <= n,
                n < (s + 1) * (s + 1),
        ;
    }
}

/// Square-root floors are monotone.
pub proof fn lemma_isqrt_monotone(a: int, b: int)
    requires
        0 <= a <= b,
    ensures
        spec_isqrt(a) <= spec_isqrt(b),
{
    lemma_isqrt_bounds(a);
    lemma_isqrt_bounds(b);
    let ra = spec_isqrt(a);
    let rb = spec_isqrt(b);
    if rb < ra {
        assert(false) by (nonlinear_arith)
            requires
                0 <= ra,
                0 <= rb,
                rb < ra,
                ra * ra <= a,
                a <= b,
                b < (rb + 1) * (rb + 1),
        ;
    }
}

/// Binary-search square root on `u128`, exact floor.
pub fn isqrt_u128(n: u128) -> (r: u128)
    requires
        n < 0x40000000000000000000000000000000,  // 2^126: keeps (hi*hi) in range
    ensures
        r as int == spec_isqrt(n as int),
        r * r <= n,
{
    let mut lo: u128 = 0;
    let mut hi: u128 = 0x800000000000000;  // 2^59
    if hi * hi <= n {
        hi = 0x8000000000000000;  // 2^63; squares to 2^126 > n
    }
    assert(hi * hi > n);
    while lo + 1 < hi
        invariant
            lo < hi,
            hi <= 0x8000000000000000,
            (lo * lo) as int <= n as int,
            (hi * hi) as int > n as int,
        decreases hi - lo,
    {
        let mid = lo + (hi - lo) / 2;
        assert(lo < mid < hi);
        proof {
            assert(mid as int * mid as int <= u128::MAX as int) by (nonlinear_arith)
                requires
                    mid < 0x10000000000000000,
            ;
        }
        if mid * mid <= n {
            lo = mid;
        } else {
            hi = mid;
        }
    }
    proof {
        assert(hi == lo + 1);
        lemma_isqrt_unique(n as int, lo as int);
    }
    lo
}

/// Truncated division of an `i128` by a positive divisor.
pub fn div_trunc(p: i128, d: i128) -> (q: i128)
    requires
        d > 0,
        p > i128::MIN,
    ensures
        q as int == sdiv(p as int, d as int),
{
    if p >= 0 {
        let q = (p as u128) / (d as u128);
        proof {
            vstd::arithmetic::div_mod::lemma_div_nonincreasing(p as int, d as int);
            vstd::arithmetic::div_mod::lemma_div_pos_is_pos(p as int, d as int);
        }
        q as i128
    } else {
        let m = -p;
        let q = (m as u128) / (d as u128);
        proof {
            vstd::arithmetic::div_mod::lemma_div_nonincreasing(m as int, d as int);
            vstd::arithmetic::div_mod::lemma_div_pos_is_pos(m as int, d as int);
        }
        -(q as i128)
    }
}

/// A product of bounded factors is bounded by the product of the bounds.
pub proof fn lemma_mul_bound(u: int, v: int, ub: int, vb: int)
    by (nonlinear_arith)
    requires
        0 <= ub,
        0 <= vb,
        -ub <= u <= ub,
        -vb <= v <= vb,
    ensures
        -(ub * vb) <= u * v <= ub * vb,
{
}

/// A quotient bound: `|a| <= q * d` gives `|sdiv(a, d)| <= q`.
pub proof fn lemma_sdiv_le(a: int, d: int, q: int)
    requires
        d > 0,
        0 <= q,
        -(q * d) <= a <= q * d,
    ensures
        -q <= sdiv(a, d) <= q,
{
    if a >= 0 {
        vstd::arithmetic::div_mod::lemma_div_is_ordered(a, q * d, d);
        vstd::arithmetic::div_mod::lemma_div_multiples_vanish(q, d);
        vstd::arithmetic::div_mod::lemma_div_pos_is_pos(a, d);
        assert(q * d == d * q) by (nonlinear_arith);
    } else {
        vstd::arithmetic::div_mod::lemma_div_is_ordered(-a, q * d, d);
        vstd::arithmetic::div_mod::lemma_div_multiples_vanish(q, d);
        vstd::arithmetic::div_mod::lemma_div_pos_is_pos(-a, d);
        assert(q * d == d * q) by (nonlinear_arith);
    }
}

/// Dividing an exact multiple returns the factor.
pub proof fn lemma_sdiv_exact(k: int, d: int)
    requires
        d > 0,
    ensures
        sdiv(k * d, d) == k,
{
    if k >= 0 {
        vstd::arithmetic::div_mod::lemma_div_multiples_vanish(k, d);
        assert(k * d == d * k) by (nonlinear_arith);
        assert(k * d >= 0) by (nonlinear_arith)
            requires
                k >= 0,
                d > 0,
        ;
    } else {
        vstd::arithmetic::div_mod::lemma_div_multiples_vanish(-k, d);
        assert(-(k * d) == d * (-k)) by (nonlinear_arith);
        assert(k * d < 0) by (nonlinear_arith)
            requires
                k < 0,
                d > 0,
        ;
    }
}

/// Truncated division preserves the dividend's sign.
pub proof fn lemma_sdiv_sign(a: int, d: int)
    requires
        d > 0,
    ensures
        a >= 0 ==> sdiv(a, d) >= 0,
        a <= 0 ==> sdiv(a, d) <= 0,
{
    if a >= 0 {
        vstd::arithmetic::div_mod::lemma_div_pos_is_pos(a, d);
    } else {
        vstd::arithmetic::div_mod::lemma_div_pos_is_pos(-a, d);
    }
}

/// A dividend at least the divisor in magnitude divides to at least one.
pub proof fn lemma_sdiv_unit(a: int, d: int)
    requires
        d > 0,
    ensures
        a >= d ==> sdiv(a, d) >= 1,
        a <= -d ==> sdiv(a, d) <= -1,
{
    if a >= d {
        vstd::arithmetic::div_mod::lemma_div_is_ordered(d, a, d);
        vstd::arithmetic::div_mod::lemma_div_by_self(d);
    } else if a <= -d {
        vstd::arithmetic::div_mod::lemma_div_is_ordered(d, -a, d);
        vstd::arithmetic::div_mod::lemma_div_by_self(d);
    }
}

/// Truncated division is monotone in the dividend.
pub proof fn lemma_sdiv_monotone(a1: int, a2: int, d: int)
    requires
        d > 0,
        a1 <= a2,
    ensures
        sdiv(a1, d) <= sdiv(a2, d),
{
    if a1 >= 0 {
        vstd::arithmetic::div_mod::lemma_div_is_ordered(a1, a2, d);
    } else if a2 >= 0 {
        vstd::arithmetic::div_mod::lemma_div_pos_is_pos(-a1, d);
        vstd::arithmetic::div_mod::lemma_div_pos_is_pos(a2, d);
    } else {
        vstd::arithmetic::div_mod::lemma_div_is_ordered(-a2, -a1, d);
    }
}

/// A scaled value between two multiples divides back to within one unit.
pub proof fn lemma_sdiv_between(a: int, d: int, lo: int, hi: int)
    requires
        d > 0,
        lo * d <= a <= hi * d,
    ensures
        lo - 1 <= sdiv(a, d) <= hi + 1,
{
    if a >= 0 {
        vstd::arithmetic::div_mod::lemma_div_pos_is_pos(a, d);
        if hi >= 0 {
            vstd::arithmetic::div_mod::lemma_div_is_ordered(a, hi * d, d);
            vstd::arithmetic::div_mod::lemma_div_multiples_vanish(hi, d);
            assert(hi * d == d * hi) by (nonlinear_arith);
        } else {
            assert(hi * d < 0) by (nonlinear_arith)
                requires
                    hi < 0,
                    d > 0,
            ;
        }
        if lo >= 0 {
            vstd::arithmetic::div_mod::lemma_div_is_ordered(lo * d, a, d);
            vstd::arithmetic::div_mod::lemma_div_multiples_vanish(lo, d);
            assert(lo * d == d * lo) by (nonlinear_arith);
        }
    } else {
        vstd::arithmetic::div_mod::lemma_div_pos_is_pos(-a, d);
        if lo <= 0 {
            vstd::arithmetic::div_mod::lemma_div_is_ordered(-a, -(lo * d), d);
            vstd::arithmetic::div_mod::lemma_div_multiples_vanish(-lo, d);
            assert(-(lo * d) == d * (-lo)) by (nonlinear_arith);
        } else {
            assert(lo * d > 0) by (nonlinear_arith)
                requires
                    lo > 0,
                    d > 0,
            ;
        }
        if hi <= 0 {
            vstd::arithmetic::div_mod::lemma_div_is_ordered(-(hi * d), -a, d);
            vstd::arithmetic::div_mod::lemma_div_multiples_vanish(-hi, d);
            assert(-(hi * d) == d * (-hi)) by (nonlinear_arith);
        }
    }
}

/// Truncated division leaves a remainder smaller than the divisor.
pub proof fn lemma_sdiv_mul_err(a: int, d: int)
    requires
        d > 0,
    ensures
        -d < sdiv(a, d) * d - a,
        sdiv(a, d) * d - a < d,
{
    if a >= 0 {
        vstd::arithmetic::div_mod::lemma_fundamental_div_mod(a, d);
        vstd::arithmetic::div_mod::lemma_remainder_upper(a, d);
        vstd::arithmetic::div_mod::lemma_remainder_lower(a, d);
        assert(sdiv(a, d) * d == d * (a / d)) by (nonlinear_arith)
            requires
                sdiv(a, d) == a / d,
        ;
    } else {
        vstd::arithmetic::div_mod::lemma_fundamental_div_mod(-a, d);
        vstd::arithmetic::div_mod::lemma_remainder_upper(-a, d);
        vstd::arithmetic::div_mod::lemma_remainder_lower(-a, d);
        assert(sdiv(a, d) * d == -(d * ((-a) / d))) by (nonlinear_arith)
            requires
                sdiv(a, d) == -((-a) / d),
        ;
    }
}

/// Fixed-point product of two scalars: `(a * b) / SCALE`, truncated.
pub fn mul_fx(a: i64, b: i64) -> (r: i64)
    requires
        -0x4000000000000000 <= a as int * b as int <= 0x4000000000000000,  // quotient fits i64
    ensures
        r as int == sdiv(a as int * b as int, SCALE as int),
        -0x4000000000000 <= r <= 0x4000000000000,
    // |r| <= 2^50
{
    let p: i128 = (a as i128) * (b as i128);
    let q = div_trunc(p, SCALE as i128);
    proof {
        let pi = p as int;
        let s = SCALE as int;
        if pi >= 0 {
            vstd::arithmetic::div_mod::lemma_div_nonincreasing(pi, s);
            vstd::arithmetic::div_mod::lemma_div_pos_is_pos(pi, s);
        } else {
            vstd::arithmetic::div_mod::lemma_div_nonincreasing(-pi, s);
            vstd::arithmetic::div_mod::lemma_div_pos_is_pos(-pi, s);
        }
    }
    q as i64
}

/// Products that appear in integer code fit their machine types.  Each
/// quantified fact bounds one shape of product.
pub proof fn lemma_i128_products()
    ensures
        forall|u: int, v: int|
            -0x80000000 <= u <= 0x80000000 && -0x80000000 <= v <= 0x80000000
                ==> -0x4000000000000000 <= #[trigger] (u * v) <= 0x4000000000000000,
        forall|u: int, v: int|
            -0x2000000000000000 <= u <= 0x2000000000000000 && -0x2000000000000000 <= v
                <= 0x2000000000000000 ==> -0x4000000000000000000000000000000
                <= #[trigger] (u * v) <= 0x4000000000000000000000000000000,
        forall|u: int, v: int|
            -0x10000000 <= u <= 0x10000000 && -0x8000000000000000 <= v <= 0x8000000000000000
                ==> -0x80000000000000000000000 <= #[trigger] (u * v) <= 0x80000000000000000000000,
        forall|u: int, v: int|
            -0x20000000000000000000000 <= u <= 0x20000000000000000000000 && -0x100000000 <= v
                <= 0x100000000 ==> -0x2000000000000000000000000000000 <= #[trigger] (u * v)
                <= 0x2000000000000000000000000000000,
{
    assert forall|u: int, v: int|
        -0x80000000 <= u <= 0x80000000 && -0x80000000 <= v <= 0x80000000
            implies -0x4000000000000000 <= #[trigger] (u * v) <= 0x4000000000000000 by {
        assert(-0x4000000000000000 <= u * v <= 0x4000000000000000) by (nonlinear_arith)
            requires
                -0x80000000 <= u <= 0x80000000,
                -0x80000000 <= v <= 0x80000000,
        ;
    }
    assert forall|u: int, v: int|
        -0x2000000000000000 <= u <= 0x2000000000000000 && -0x2000000000000000 <= v
            <= 0x2000000000000000
            implies -0x4000000000000000000000000000000 <= #[trigger] (u * v)
            <= 0x4000000000000000000000000000000 by {
        assert(-0x4000000000000000000000000000000 <= u * v
            <= 0x4000000000000000000000000000000) by (nonlinear_arith)
            requires
                -0x2000000000000000 <= u <= 0x2000000000000000,
                -0x2000000000000000 <= v <= 0x2000000000000000,
        ;
    }
    assert forall|u: int, v: int|
        -0x10000000 <= u <= 0x10000000 && -0x8000000000000000 <= v <= 0x8000000000000000
            implies -0x80000000000000000000000 <= #[trigger] (u * v)
            <= 0x80000000000000000000000 by {
        assert(-0x80000000000000000000000 <= u * v <= 0x80000000000000000000000)
            by (nonlinear_arith)
            requires
                -0x10000000 <= u <= 0x10000000,
                -0x8000000000000000 <= v <= 0x8000000000000000,
        ;
    }
    assert forall|u: int, v: int|
        -0x20000000000000000000000 <= u <= 0x20000000000000000000000 && -0x100000000 <= v
            <= 0x100000000
            implies -0x2000000000000000000000000000000 <= #[trigger] (u * v)
            <= 0x2000000000000000000000000000000 by {
        assert(-0x2000000000000000000000000000000 <= u * v
            <= 0x2000000000000000000000000000000) by (nonlinear_arith)
            requires
                -0x20000000000000000000000 <= u <= 0x20000000000000000000000,
                -0x100000000 <= v <= 0x100000000,
        ;
    }
}


} // verus!

//! Three-component vectors over Q16.16 fixed-point scalars.

use vstd::prelude::*;
use crate::math::{sdiv, spec_isqrt, div_trunc, isqrt_u128, SCALE};

verus! {

#[derive(Clone, Copy, PartialEq, Eq, Structural, Debug)]
pub struct Vec3 {
    pub x: i64,
    pub y: i64,
    pub z: i64,
}

/// Every component within `[-b, b]`.
pub open spec fn in_range(v: Vec3, b: int) -> bool {
    &&& -b <= v.x <= b
    &&& -b <= v.y <= b
    &&& -b <= v.z <= b
}

/// Mathematical dot product of the raw components (scale `SCALE^2`).
pub open spec fn dot3(u: Vec3, v: Vec3) -> int {
    u.x * v.x + u.y * v.y + u.z * v.z
}

/// Raw cross-product components (scale `SCALE^2`, no rescaling).
pub open spec fn cross_x(u: Vec3, v: Vec3) -> int {
    u.y * v.z - u.z * v.y
}

pub open spec fn cross_y(u: Vec3, v: Vec3) -> int {
    u.z * v.x - u.x * v.z
}

pub open spec fn cross_z(u: Vec3, v: Vec3) -> int {
    u.x * v.y - u.y * v.x
}

pub proof fn lemma_dot_bound(u: Vec3, v: Vec3, b: int)
    requires
        0 <= b,
        in_range(u, b),
        in_range(v, b),
    ensures
        -3 * (b * b) <= dot3(u, v) <= 3 * (b * b),
        -2 * (b * b) <= cross_x(u, v) <= 2 * (b * b),
        -2 * (b * b) <= cross_y(u, v) <= 2 * (b * b),
        -2 * (b * b) <= cross_z(u, v) <= 2 * (b * b),
        -(b * b) <= u.x * v.x <= b * b,
        -(b * b) <= u.y * v.y <= b * b,
        -(b * b) <= u.z * v.z <= b * b,
        -(b * b) <= u.y * v.z <= b * b,
        -(b * b) <= u.z * v.y <= b * b,
        -(b * b) <= u.z * v.x <= b * b,
        -(b * b) <= u.x * v.z <= b * b,
        -(b * b) <= u.x * v.y <= b * b,
        -(b * b) <= u.y * v.x <= b * b,
{
    assert(-(b * b) <= u.x * v.x <= b * b) by (nonlinear_arith)
        requires
            -b <= u.x <= b,
            -b <= v.x <= b,
            0 <= b,
    ;
    assert(-(b * b) <= u.y * v.y <= b * b) by (nonlinear_arith)
        requires
            -b <= u.y <= b,
            -b <= v.y <= b,
            0 <= b,
    ;
    assert(-(b * b) <= u.z * v.z <= b * b) by (nonlinear_arith)
        requires
            -b <= u.z <= b,
            -b <= v.z <= b,
            0 <= b,
    ;
    assert(-(b * b) <= u.y * v.z <= b * b) by (nonlinear_arith)
        requires
            -b <= u.y <= b,
            -b <= v.z <= b,
            0 <= b,
    ;
    assert(-(b * b) <= u.z * v.y <= b * b) by (nonlinear_arith)
        requires
            -b <= u.z <= b,
            -b <= v.y <= b,
            0 <= b,
    ;
    assert(-(b * b) <= u.z * v.x <= b * b) by (nonlinear_arith)
        requires
            -b <= u.z <= b,
            -b <= v.x <= b,
            0 <= b,
    ;
    assert(-(b * b) <= u.x * v.z <= b * b) by (nonlinear_arith)
        requires
            -b <= u.x <= b,
            -b <= v.z <= b,
            0 <= b,
    ;
    assert(-(b * b) <= u.x * v.y <= b * b) by (nonlinear_arith)
        requires
            -b <= u.x <= b,
            -b <= v.y <= b,
            0 <= b,
    ;
    assert(-(b * b) <= u.y * v.x <= b * b) by (nonlinear_arith)
        requires
            -b <= u.y <= b,
            -b <= v.x <= b,
            0 <= b,
    ;
}

impl Vec3 {
    pub fn new(x: i64, y: i64, z: i64) -> (v: Vec3)
        ensures
            v == (Vec3 { x, y, z }),
    {
        Vec3 { x, y, z }
    }

    pub fn x(&self) -> (r: i64)
        ensures
            r == self.x,
    {
        self.x
    }

    pub fn y(&self) -> (r: i64)
        ensures
            r == self.y,
    {
        self.y
    }

    pub fn z(&self) -> (r: i64)
        ensures
            r == self.z,
    {
        self.z
    }

    pub fn get_idx(&self, idx: usize) -> (r: i64)
        ensures
            r == if idx == 0 {
                self.x
            } else if idx == 1 {
                self.y
            } else {
                self.z
            },
    {
        if idx == 0 {
            self.x
        } else if idx == 1 {
            self.y
        } else {
            self.z
        }
    }

    pub fn set_idx(&mut self, idx: usize, val: i64)
        ensures
            final(self).x == if idx == 0 {
                val
            } else {
                old(self).x
            },
            final(self).y == if idx == 1 {
                val
            } else {
                old(self).y
            },
            final(self).z == if idx == 0 || idx == 1 {
                old(self).z
            } else {
                val
            },
    {
        if idx == 0 {
            self.x = val;
        } else if idx == 1 {
            self.y = val;
        } else {
            self.z = val;
        }
    }

    pub fn add(&self, rhs: &Vec3) -> (r: Vec3)
        requires
            i64::MIN <= self.x + rhs.x <= i64::MAX,
            i64::MIN <= self.y + rhs.y <= i64::MAX,
            i64::MIN <= self.z + rhs.z <= i64::MAX,
        ensures
            r.x == self.x + rhs.x,
            r.y == self.y + rhs.y,
            r.z == self.z + rhs.z,
    {
        Vec3 { x: self.x + rhs.x, y: self.y + rhs.y, z: self.z + rhs.z }
    }

    pub fn sub(&self, rhs: &Vec3) -> (r: Vec3)
        requires
            i64::MIN <= self.x - rhs.x <= i64::MAX,
            i64::MIN <= self.y - rhs.y <= i64::MAX,
            i64::MIN <= self.z - rhs.z <= i64::MAX,
        ensures
            r.x == self.x - rhs.x,
            r.y == self.y - rhs.y,
            r.z == self.z - rhs.z,
    {
        Vec3 { x: self.x - rhs.x, y: self.y - rhs.y, z: self.z - rhs.z }
    }

    pub fn neg(&self) -> (r: Vec3)
        requires
            self.x > i64::MIN,
            self.y > i64::MIN,
            self.z > i64::MIN,
        ensures
            r.x == -self.x,
            r.y == -self.y,
            r.z == -self.z,
    {
        Vec3 { x: -self.x, y: -self.y, z: -self.z }
    }

    /// Componentwise fixed-point product, truncated toward zero.
    pub fn mul_vec(&self, rhs: &Vec3) -> (r: Vec3)
        requires
            -0x4000000000000000 <= self.x * rhs.x <= 0x4000000000000000,
            -0x4000000000000000 <= self.y * rhs.y <= 0x4000000000000000,
            -0x4000000000000000 <= self.z * rhs.z <= 0x4000000000000000,
        ensures
            r.x == sdiv(self.x * rhs.x, SCALE as int),
            r.y == sdiv(self.y * rhs.y, SCALE as int),
            r.z == sdiv(self.z * rhs.z, SCALE as int),
            in_range(r, 0x4000000000000),
    {
        Vec3 {
            x: crate::math::mul_fx(self.x, rhs.x),
            y: crate::math::mul_fx(self.y, rhs.y),
            z: crate::math::mul_fx(self.z, rhs.z),
        }
    }

    /// Fixed-point scaling by a scalar, truncated toward zero.
    pub fn scale(&self, s: i64) -> (r: Vec3)
        requires
            -0x4000000000000000 <= self.x * s <= 0x4000000000000000,
            -0x4000000000000000 <= self.y * s <= 0x4000000000000000,
            -0x4000000000000000 <= self.z * s <= 0x4000000000000000,
        ensures
            r.x == sdiv(self.x * s, SCALE as int),
            r.y == sdiv(self.y * s, SCALE as int),
            r.z == sdiv(self.z * s, SCALE as int),
            in_range(r, 0x4000000000000),
    {
        Vec3 {
            x: crate::math::mul_fx(self.x, s),
            y: crate::math::mul_fx(self.y, s),
            z: crate::math::mul_fx(self.z, s),
        }
    }

    /// Exact dot product of the raw components (result carries scale `SCALE^2`).
    pub fn dot(&self, v: &Vec3) -> (r: i64)
        requires
            in_range(*self, 0x40000000),
            in_range(*v, 0x40000000),
        ensures
            r == dot3(*self, *v),
    {
        proof {
            lemma_dot_bound(*self, *v, 0x40000000);
        }
        self.x * v.x + self.y * v.y + self.z * v.z
    }

    /// Cross product rescaled back to `SCALE` (componentwise truncation).
    pub fn cross(&self, v: &Vec3) -> (r: Vec3)
        requires
            in_range(*self, 0x40000000),
            in_range(*v, 0x40000000),
        ensures
            r.x == sdiv(cross_x(*self, *v), SCALE as int),
            r.y == sdiv(cross_y(*self, *v), SCALE as int),
            r.z == sdiv(cross_z(*self, *v), SCALE as int),
    {
        proof {
            lemma_dot_bound(*self, *v, 0x40000000);
        }
        let cx = (self.y as i128) * (v.z as i128) - (self.z as i128) * (v.y as i128);
        let cy = (self.z as i128) * (v.x as i128) - (self.x as i128) * (v.z as i128);
        let cz = (self.x as i128) * (v.y as i128) - (self.y as i128) * (v.x as i128);
        let rx = div_trunc(cx, SCALE as i128);
        let ry = div_trunc(cy, SCALE as i128);
        let rz = div_trunc(cz, SCALE as i128);
        proof {
            lemma_sdiv_bound(cx as int, 0x7fffffffffffffff);
            lemma_sdiv_bound(cy as int, 0x7fffffffffffffff);
            lemma_sdiv_bound(cz as int, 0x7fffffffffffffff);
        }
        Vec3 { x: rx as i64, y: ry as i64, z: rz as i64 }
    }

    /// Squared length of the raw components (scale `SCALE^2`).
    pub fn length_squared(&self) -> (r: i64)
        requires
            in_range(*self, 0x40000000),
        ensures
            r == dot3(*self, *self),
            r >= 0,
    {
        proof {
            lemma_dot_bound(*self, *self, 0x40000000);
            assert(self.x * self.x >= 0) by (nonlinear_arith);
            assert(self.y * self.y >= 0) by (nonlinear_arith);
            assert(self.z * self.z >= 0) by (nonlinear_arith);
        }
        self.x * self.x + self.y * self.y + self.z * self.z
    }

    /// Length as the floor of the square root (scale `SCALE`).
    pub fn length(&self) -> (r: i64)
        requires
            in_range(*self, 0x40000000),
        ensures
            r == spec_isqrt(dot3(*self, *self)),
            0 <= r <= 0x80000000,
    {
        proof {
            lemma_dot_bound(*self, *self, 0x40000000);
        }
        let sq = self.length_squared();
        let r = isqrt_u128(sq as u128);
        proof {
            crate::math::lemma_isqrt_bounds(sq as int);
            assert(spec_isqrt(sq as int) <= 0x80000000) by (nonlinear_arith)
                requires
                    sq as int <= 0x3000000000000000,
                    spec_isqrt(sq as int) * spec_isqrt(sq as int) <= sq as int,
                    spec_isqrt(sq as int) >= 0,
            ;
        }
        r as i64
    }

    /// Normalization: each component becomes `v_i * SCALE / |v|`, truncated.
    /// The result never points away from its input, and points strictly
    /// along it for vectors of length at least one.
    pub fn unit_vector(&self) -> (r: Vec3)
        requires
            in_range(*self, 0x40000000),
            dot3(*self, *self) > 0,
        ensures
            r.x == sdiv(self.x * SCALE, spec_isqrt(dot3(*self, *self))),
            r.y == sdiv(self.y * SCALE, spec_isqrt(dot3(*self, *self))),
            r.z == sdiv(self.z * SCALE, spec_isqrt(dot3(*self, *self))),
            dot3(*self, r) >= 0,
            dot3(*self, *self) >= SCALE as int * SCALE as int ==> dot3(*self, r) > 0,
    {
        let len = self.length();
        proof {
            crate::math::lemma_isqrt_bounds(dot3(*self, *self));
            assert(spec_isqrt(dot3(*self, *self)) >= 1) by (nonlinear_arith)
                requires
                    dot3(*self, *self) >= 1,
                    dot3(*self, *self) < (spec_isqrt(dot3(*self, *self)) + 1) * (spec_isqrt(
                        dot3(*self, *self),
                    ) + 1),
                    spec_isqrt(dot3(*self, *self)) >= 0,
            ;
            lemma_sdiv_bound(self.x * SCALE, 0x7fffffffffffffff);
            lemma_sdiv_bound(self.y * SCALE, 0x7fffffffffffffff);
            lemma_sdiv_bound(self.z * SCALE, 0x7fffffffffffffff);
        }
        let rx = div_trunc((self.x as i128) * (SCALE as i128), len as i128);
        let ry = div_trunc((self.y as i128) * (SCALE as i128), len as i128);
        let rz = div_trunc((self.z as i128) * (SCALE as i128), len as i128);
        let out = Vec3 { x: rx as i64, y: ry as i64, z: rz as i64 };
        proof {
            let d = dot3(*self, *self);
            let l = spec_isqrt(d);
            lemma_unit_term(self.x as int, l);
            lemma_unit_term(self.y as int, l);
            lemma_unit_term(self.z as int, l);
            if d >= SCALE as int * SCALE as int {
                assert(self.x * self.x >= d / 3 || self.y * self.y >= d / 3 || self.z * self.z
                    >= d / 3) by (nonlinear_arith)
                    requires
                        d == self.x * self.x + self.y * self.y + self.z * self.z,
                ;
                crate::math::lemma_isqrt_bounds(d);
                if self.x * self.x >= d / 3 {
                    lemma_unit_term_strict(self.x as int, l, d);
                } else if self.y * self.y >= d / 3 {
                    lemma_unit_term_strict(self.y as int, l, d);
                } else {
                    lemma_unit_term_strict(self.z as int, l, d);
                }
            }
        }
        out
    }
}

/// Squares regroup across a product.
proof fn lemma_sq_regroup(a: int, l: int)
    by (nonlinear_arith)
    ensures
        (a * l) * (a * l) == (a * a) * (l * l),
{
}

/// One component of a normalization: the scaled quotient squared differs
/// from the exact square by a bounded cross term.
proof fn lemma_norm_comp(c: int, s: int, len: int)
    requires
        len > 0,
        s > 0,
        c * c < (len + 1) * (len + 1),
    ensures
        (sdiv(c * s, len) * len) * (sdiv(c * s, len) * len) <= (c * s) * (c * s) + 2 * ((len + 1)
            * s) * len + len * len,
        (sdiv(c * s, len) * len) * (sdiv(c * s, len) * len) >= (c * s) * (c * s) - 2 * ((len + 1)
            * s) * len,
{
    crate::math::lemma_sdiv_mul_err(c * s, len);
    let q = sdiv(c * s, len) * len;
    let a = c * s;
    assert(-(len + 1) <= c <= len + 1) by (nonlinear_arith)
        requires
            c * c < (len + 1) * (len + 1),
            len > 0,
    ;
    assert(-((len + 1) * s) <= a <= (len + 1) * s) by (nonlinear_arith)
        requires
            -(len + 1) <= c <= len + 1,
            s > 0,
            a == c * s,
    ;
    assert(q * q <= a * a + 2 * ((len + 1) * s) * len + len * len && q * q >= a * a - 2 * ((len
        + 1) * s) * len) by (nonlinear_arith)
        requires
            -len < q - a < len,
            -((len + 1) * s) <= a <= (len + 1) * s,
            len > 0,
            s > 0,
    ;
}

/// Normalizing a vector of length at least one produces a vector whose
/// squared length is within a small tolerance of one: between
/// `(SCALE - 4)^2` and `(SCALE + 5)^2`, a relative error below `1e-4`.
pub proof fn lemma_unit_length(v: Vec3)
    requires
        dot3(v, v) >= SCALE as int * SCALE as int,
    ensures
        ({
            let len = spec_isqrt(dot3(v, v));
            let ux = sdiv(v.x * SCALE, len);
            let uy = sdiv(v.y * SCALE, len);
            let uz = sdiv(v.z * SCALE, len);
            (SCALE - 4) * (SCALE - 4) <= ux * ux + uy * uy + uz * uz <= (SCALE + 5) * (SCALE + 5)
        }),
{
    let n = dot3(v, v);
    let s = SCALE as int;
    crate::math::lemma_isqrt_bounds(n);
    let len = spec_isqrt(n);
    assert(len >= s) by (nonlinear_arith)
        requires
            n >= s * s,
            n < (len + 1) * (len + 1),
            len >= 0,
            s == 65536,
    ;
    assert(v.x * v.x >= 0 && v.y * v.y >= 0 && v.z * v.z >= 0) by (nonlinear_arith);
    assert(v.x * v.x < (len + 1) * (len + 1) && v.y * v.y < (len + 1) * (len + 1) && v.z * v.z < (
    len + 1) * (len + 1)) by (nonlinear_arith)
        requires
            v.x * v.x + v.y * v.y + v.z * v.z == n,
            n < (len + 1) * (len + 1),
            v.x * v.x >= 0,
            v.y * v.y >= 0,
            v.z * v.z >= 0,
    ;
    lemma_norm_comp(v.x as int, s, len);
    lemma_norm_comp(v.y as int, s, len);
    lemma_norm_comp(v.z as int, s, len);
    let ux = sdiv(v.x * s, len);
    let uy = sdiv(v.y * s, len);
    let uz = sdiv(v.z * s, len);
    let uu = ux * ux + uy * uy + uz * uz;
    // sum the per-component bounds: uu * len^2 brackets s^2 * n
    lemma_sq_regroup(ux, len);
    lemma_sq_regroup(uy, len);
    lemma_sq_regroup(uz, len);
    lemma_sq_regroup(v.x as int, s);
    lemma_sq_regroup(v.y as int, s);
    lemma_sq_regroup(v.z as int, s);
    assert((ux * ux) * (len * len) + (uy * uy) * (len * len) + (uz * uz) * (len * len) == uu * (len
        * len)) by (nonlinear_arith)
        requires
            uu == ux * ux + uy * uy + uz * uz,
    ;
    assert((v.x * v.x) * (s * s) + (v.y * v.y) * (s * s) + (v.z * v.z) * (s * s) == (s * s) * n)
        by (nonlinear_arith)
        requires
            n == v.x * v.x + v.y * v.y + v.z * v.z,
    ;
    assert((ux * len) * (ux * len) == (ux * ux) * (len * len));
    assert((uy * len) * (uy * len) == (uy * uy) * (len * len));
    assert((uz * len) * (uz * len) == (uz * uz) * (len * len));
    assert((ux * ux) * (len * len) <= ((v.x as int) * s) * ((v.x as int) * s) + 2 * ((len + 1) * s)
        * len + len * len);
    assert((uy * uy) * (len * len) <= ((v.y as int) * s) * ((v.y as int) * s) + 2 * ((len + 1) * s)
        * len + len * len);
    assert((uz * uz) * (len * len) <= ((v.z as int) * s) * ((v.z as int) * s) + 2 * ((len + 1) * s)
        * len + len * len);
    assert((ux * ux) * (len * len) >= ((v.x as int) * s) * ((v.x as int) * s) - 2 * ((len + 1) * s)
        * len);
    assert((uy * uy) * (len * len) >= ((v.y as int) * s) * ((v.y as int) * s) - 2 * ((len + 1) * s)
        * len);
    assert((uz * uz) * (len * len) >= ((v.z as int) * s) * ((v.z as int) * s) - 2 * ((len + 1) * s)
        * len);
    assert(((v.x as int) * s) * ((v.x as int) * s) == (v.x * v.x) * (s * s));
    assert(((v.y as int) * s) * ((v.y as int) * s) == (v.y * v.y) * (s * s));
    assert(((v.z as int) * s) * ((v.z as int) * s) == (v.z * v.z) * (s * s));
    assert(uu * (len * len) <= (s * s) * n + 6 * ((len + 1) * s) * len + 3 * (len * len) && uu * (
    len * len) >= (s * s) * n - 6 * ((len + 1) * s) * len) by (nonlinear_arith)
        requires
            uu * (len * len) == (ux * ux) * (len * len) + (uy * uy) * (len * len) + (uz * uz) * (
            len * len),
            (ux * ux) * (len * len) <= (v.x * v.x) * (s * s) + 2 * ((len + 1) * s) * len + len
                * len,
            (uy * uy) * (len * len) <= (v.y * v.y) * (s * s) + 2 * ((len + 1) * s) * len + len
                * len,
            (uz * uz) * (len * len) <= (v.z * v.z) * (s * s) + 2 * ((len + 1) * s) * len + len
                * len,
            (ux * ux) * (len * len) >= (v.x * v.x) * (s * s) - 2 * ((len + 1) * s) * len,
            (uy * uy) * (len * len) >= (v.y * v.y) * (s * s) - 2 * ((len + 1) * s) * len,
            (uz * uz) * (len * len) >= (v.z * v.z) * (s * s) - 2 * ((len + 1) * s) * len,
            (v.x * v.x) * (s * s) + (v.y * v.y) * (s * s) + (v.z * v.z) * (s * s) == (s * s) * n,
        ;
    // upper direction: n < (len+1)^2 and len >= s give the final bracket
    assert(uu * (len * len) <= ((s + 5) * (s + 5)) * (len * len)) by (nonlinear_arith)
        requires
            uu * (len * len) <= (s * s) * n + 6 * ((len + 1) * s) * len + 3 * (len * len),
            n < (len + 1) * (len + 1),
            len >= s,
            s == 65536,
    ;
    assert(uu * (len * len) >= ((s - 4) * (s - 4)) * (len * len)) by (nonlinear_arith)
        requires
            uu * (len * len) >= (s * s) * n - 6 * ((len + 1) * s) * len,
            n >= len * len,
            len >= s,
            s == 65536,
    ;
    assert((s - 4) * (s - 4) <= uu <= (s + 5) * (s + 5)) by (nonlinear_arith)
        requires
            uu * (len * len) <= ((s + 5) * (s + 5)) * (len * len),
            uu * (len * len) >= ((s - 4) * (s - 4)) * (len * len),
            len > 0,
    ;
}

/// A component times its own normalized component is never negative.
proof fn lemma_unit_term(c: int, l: int)
    requires
        l > 0,
    ensures
        c * sdiv(c * SCALE, l) >= 0,
{
    crate::math::lemma_sdiv_sign(c * SCALE, l);
    if c >= 0 {
        assert(c * SCALE >= 0) by (nonlinear_arith)
            requires
                c >= 0,
                SCALE == 65536,
        ;
        assert(c * sdiv(c * SCALE, l) >= 0) by (nonlinear_arith)
            requires
                c >= 0,
                sdiv(c * SCALE, l) >= 0,
        ;
    } else {
        assert(c * SCALE <= 0) by (nonlinear_arith)
            requires
                c <= 0,
                SCALE == 65536,
        ;
        assert(c * sdiv(c * SCALE, l) >= 0) by (nonlinear_arith)
            requires
                c <= 0,
                sdiv(c * SCALE, l) <= 0,
        ;
    }
}

/// A dominant component of a long vector contributes at least one unit.
proof fn lemma_unit_term_strict(c: int, l: int, d: int)
    requires
        l > 0,
        l * l <= d,
        d < (l + 1) * (l + 1),
        c * c >= d / 3,
        d >= SCALE as int * SCALE as int,
    ensures
        c * sdiv(c * SCALE, l) >= 1,
{
    assert((c * SCALE) * (c * SCALE) >= l * l) by (nonlinear_arith)
        requires
            c * c >= d / 3,
            l * l <= d,
            d >= SCALE as int * SCALE as int,
            SCALE == 65536,
    ;
    assert(c * SCALE >= l || c * SCALE <= -l) by (nonlinear_arith)
        requires
            (c * SCALE) * (c * SCALE) >= l * l,
            l > 0,
    ;
    crate::math::lemma_sdiv_unit(c * SCALE, l);
    if c * SCALE >= l {
        assert(c >= 1) by (nonlinear_arith)
            requires
                c * SCALE >= l,
                l > 0,
                SCALE == 65536,
        ;
        assert(c * sdiv(c * SCALE, l) >= 1) by (nonlinear_arith)
            requires
                c >= 1,
                sdiv(c * SCALE, l) >= 1,
        ;
    } else {
        assert(c <= -1) by (nonlinear_arith)
            requires
                c * SCALE <= -l,
                l > 0,
                SCALE == 65536,
        ;
        assert(c * sdiv(c * SCALE, l) >= 1) by (nonlinear_arith)
            requires
                c <= -1,
                sdiv(c * SCALE, l) <= -1,
        ;
    }
}

/// Truncated division never grows the magnitude of the dividend.
pub proof fn lemma_sdiv_bound(a: int, b: int)
    requires
        -b <= a <= b,
        0 <= b,
    ensures
        forall|d: int| d >= 1 ==> -b <= #[trigger] sdiv(a, d) <= b,
{
    assert forall|d: int| d >= 1 implies -b <= #[trigger] sdiv(a, d) <= b by {
        if a >= 0 {
            vstd::arithmetic::div_mod::lemma_div_nonincreasing(a, d);
            vstd::arithmetic::div_mod::lemma_div_pos_is_pos(a, d);
        } else {
            vstd::arithmetic::div_mod::lemma_div_nonincreasing(-a, d);
            vstd::arithmetic::div_mod::lemma_div_pos_is_pos(-a, d);
        }
    }
}

} // verus!

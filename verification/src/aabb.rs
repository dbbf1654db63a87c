//! Axis-aligned bounding boxes and the slab intersection test.
//!
//! The slab test is stated exactly: for each axis the ray parameter is
//! bounded by two rationals, and the test decides whether the system of
//! bounds together with the open window `(t0, t1)` has a rational solution.
//! Two variants exist: the public `hit` treats the box as an open region
//! (a ray grazing a face misses), while the crate-internal `may_hit` treats
//! it as closed and is used for octree pruning, where over-acceptance is
//! harmless and under-acceptance would lose hits.

use vstd::prelude::*;
use crate::math::SCALE;
use crate::vec3::{Vec3, in_range};
use crate::ray::{Ray, ray_wf};

verus! {

/// Bound used in place of a missing axis constraint (direction component 0).
pub const INF_NUM: i128 = 0x1000000000000000000000000;

/// Largest magnitude allowed for a box corner component.
pub const BOX_MAX: i64 = 0x10000000;

#[derive(Clone, Copy, PartialEq, Eq, Structural, Debug)]
pub struct AABB {
    pub min: Vec3,
    pub max: Vec3,
}

pub open spec fn box_wf(b: AABB) -> bool {
    &&& in_range(b.min, BOX_MAX as int)
    &&& in_range(b.max, BOX_MAX as int)
    &&& b.min.x <= b.max.x
    &&& b.min.y <= b.max.y
    &&& b.min.z <= b.max.z
}

/// The exact point at rational parameter `t` (scaled comparison, axis x):
/// `min <= o + d * t / SCALE <= max` multiplied through by `SCALE`.
pub open spec fn pt_in_box(r: Ray, t: int, b: AABB) -> bool {
    &&& (b.min.x - r.origin.x) * SCALE <= r.direction.x * t
    &&& r.direction.x * t <= (b.max.x - r.origin.x) * SCALE
    &&& (b.min.y - r.origin.y) * SCALE <= r.direction.y * t
    &&& r.direction.y * t <= (b.max.y - r.origin.y) * SCALE
    &&& (b.min.z - r.origin.z) * SCALE <= r.direction.z * t
    &&& r.direction.z * t <= (b.max.z - r.origin.z) * SCALE
}

/// Normalized per-axis lower bound numerator for the ray parameter.
pub open spec fn ax_lo(o: int, d: int, mn: int, mx: int) -> int {
    if d > 0 {
        (mn - o) * SCALE
    } else if d < 0 {
        (o - mx) * SCALE
    } else {
        -(INF_NUM as int)
    }
}

/// Normalized per-axis upper bound numerator for the ray parameter.
pub open spec fn ax_hi(o: int, d: int, mn: int, mx: int) -> int {
    if d > 0 {
        (mx - o) * SCALE
    } else if d < 0 {
        (o - mn) * SCALE
    } else {
        INF_NUM as int
    }
}

/// Normalized per-axis positive denominator.
pub open spec fn ax_den(d: int) -> int {
    if d > 0 {
        d
    } else if d < 0 {
        -d
    } else {
        1
    }
}

/// For an axis the ray runs parallel to, the origin must lie in the slab.
pub open spec fn ax_zero_ok(o: int, d: int, mn: int, mx: int, strict: bool) -> bool {
    d != 0 || (if strict {
        mn < o < mx
    } else {
        mn <= o <= mx
    })
}

/// Comparison that is strict or non-strict depending on the variant.
pub open spec fn cc(x: int, y: int, strict: bool) -> bool {
    if strict {
        x < y
    } else {
        x <= y
    }
}

/// The slab test: the per-axis parameter bounds, intersected with the open
/// window `(t0, t1)`, admit a common rational parameter.  Feasibility of the
/// system is expressed by pairwise comparison of every lower bound with
/// every upper bound.
pub open spec fn spec_slab(b: AABB, r: Ray, t0: int, t1: int, strict: bool) -> bool {
    let l1 = ax_lo(r.origin.x as int, r.direction.x as int, b.min.x as int, b.max.x as int);
    let h1 = ax_hi(r.origin.x as int, r.direction.x as int, b.min.x as int, b.max.x as int);
    let e1 = ax_den(r.direction.x as int);
    let l2 = ax_lo(r.origin.y as int, r.direction.y as int, b.min.y as int, b.max.y as int);
    let h2 = ax_hi(r.origin.y as int, r.direction.y as int, b.min.y as int, b.max.y as int);
    let e2 = ax_den(r.direction.y as int);
    let l3 = ax_lo(r.origin.z as int, r.direction.z as int, b.min.z as int, b.max.z as int);
    let h3 = ax_hi(r.origin.z as int, r.direction.z as int, b.min.z as int, b.max.z as int);
    let e3 = ax_den(r.direction.z as int);
    &&& ax_zero_ok(r.origin.x as int, r.direction.x as int, b.min.x as int, b.max.x as int, strict)
    &&& ax_zero_ok(r.origin.y as int, r.direction.y as int, b.min.y as int, b.max.y as int, strict)
    &&& ax_zero_ok(r.origin.z as int, r.direction.z as int, b.min.z as int, b.max.z as int, strict)
    &&& t0 < t1
    &&& t0 * e1 < h1
    &&& t0 * e2 < h2
    &&& t0 * e3 < h3
    &&& l1 < t1 * e1
    &&& l2 < t1 * e2
    &&& l3 < t1 * e3
    &&& cc(l1 * e1, h1 * e1, strict)
    &&& cc(l1 * e2, h2 * e1, strict)
    &&& cc(l1 * e3, h3 * e1, strict)
    &&& cc(l2 * e1, h1 * e2, strict)
    &&& cc(l2 * e2, h2 * e2, strict)
    &&& cc(l2 * e3, h3 * e2, strict)
    &&& cc(l3 * e1, h1 * e3, strict)
    &&& cc(l3 * e2, h2 * e3, strict)
    &&& cc(l3 * e3, h3 * e3, strict)
}

/// One axis of the slab test, in executable form.
fn axis_bounds(o: i64, d: i64, mn: i64, mx: i64) -> (r: (i128, i128, i128))
    requires
        -BOX_MAX <= o <= BOX_MAX,
        -BOX_MAX <= d <= BOX_MAX,
        -BOX_MAX <= mn <= BOX_MAX,
        -BOX_MAX <= mx <= BOX_MAX,
    ensures
        r.0 == ax_lo(o as int, d as int, mn as int, mx as int),
        r.1 == ax_hi(o as int, d as int, mn as int, mx as int),
        r.2 == ax_den(d as int),
        0 < r.2 <= BOX_MAX,
{
    proof {
        assert(forall|u: int|
            -0x80000000 <= u <= 0x80000000 ==> -0x800000000000 <= #[trigger] (u * SCALE)
                <= 0x800000000000) by (nonlinear_arith);
    }
    if d > 0 {
        (
            ((mn as i128) - (o as i128)) * (SCALE as i128),
            ((mx as i128) - (o as i128)) * (SCALE as i128),
            d as i128,
        )
    } else if d < 0 {
        (
            ((o as i128) - (mx as i128)) * (SCALE as i128),
            ((o as i128) - (mn as i128)) * (SCALE as i128),
            -(d as i128),
        )
    } else {
        (-INF_NUM, INF_NUM, 1)
    }
}

impl AABB {
    pub fn new(min: Vec3, max: Vec3) -> (b: AABB)
        ensures
            b == (AABB { min, max }),
    {
        AABB { min, max }
    }

    /// The slab test with open-region semantics, exactly as specified by
    /// `spec_slab` with `strict` set.
    pub fn hit(&self, ray: &Ray, t_min: i64, t_max: i64) -> (res: bool)
        requires
            box_wf(*self),
            ray_wf(*ray),
        ensures
            res == spec_slab(*self, *ray, t_min as int, t_max as int, true),
    {
        slab_test(self, ray, t_min, t_max, true)
    }

    /// The closed-region slab test used for octree pruning: it accepts
    /// whenever any parameter in the open window touches the closed box.
    pub fn may_hit(&self, ray: &Ray, t_min: i64, t_max: i64) -> (res: bool)
        requires
            box_wf(*self),
            ray_wf(*ray),
        ensures
            res == spec_slab(*self, *ray, t_min as int, t_max as int, false),
    {
        slab_test(self, ray, t_min, t_max, false)
    }

    /// Closed-interval intersection on every axis.
    pub fn overlaps(&self, other: &AABB) -> (res: bool)
        ensures
            res == spec_overlaps(*self, *other),
    {
        self.min.x <= other.max.x && other.min.x <= self.max.x && self.min.y <= other.max.y
            && other.min.y <= self.max.y && self.min.z <= other.max.z && other.min.z <= self.max.z
    }
}

/// Two boxes overlap when their closed extents intersect on every axis.
pub open spec fn spec_overlaps(a: AABB, b: AABB) -> bool {
    &&& a.min.x <= b.max.x
    &&& b.min.x <= a.max.x
    &&& a.min.y <= b.max.y
    &&& b.min.y <= a.max.y
    &&& a.min.z <= b.max.z
    &&& b.min.z <= a.max.z
}

fn slab_test(b: &AABB, r: &Ray, t0: i64, t1: i64, strict: bool) -> (res: bool)
    requires
        box_wf(*b),
        ray_wf(*r),
    ensures
        res == spec_slab(*b, *r, t0 as int, t1 as int, strict),
{
    let (l1, h1, e1) = axis_bounds(r.origin.x, r.direction.x, b.min.x, b.max.x);
    let (l2, h2, e2) = axis_bounds(r.origin.y, r.direction.y, b.min.y, b.max.y);
    let (l3, h3, e3) = axis_bounds(r.origin.z, r.direction.z, b.min.z, b.max.z);
    proof {
        lemma_axis_num_range(r.origin.x as int, r.direction.x as int, b.min.x as int, b.max.x as int);
        lemma_axis_num_range(r.origin.y as int, r.direction.y as int, b.min.y as int, b.max.y as int);
        lemma_axis_num_range(r.origin.z as int, r.direction.z as int, b.min.z as int, b.max.z as int);
        lemma_slab_products(
            l1 as int, h1 as int, e1 as int,
            l2 as int, h2 as int, e2 as int,
            l3 as int, h3 as int, e3 as int,
            t0 as int, t1 as int,
        );
    }
    let zx = r.direction.x != 0 || (if strict {
        b.min.x < r.origin.x && r.origin.x < b.max.x
    } else {
        b.min.x <= r.origin.x && r.origin.x <= b.max.x
    });
    let zy = r.direction.y != 0 || (if strict {
        b.min.y < r.origin.y && r.origin.y < b.max.y
    } else {
        b.min.y <= r.origin.y && r.origin.y <= b.max.y
    });
    let zz = r.direction.z != 0 || (if strict {
        b.min.z < r.origin.z && r.origin.z < b.max.z
    } else {
        b.min.z <= r.origin.z && r.origin.z <= b.max.z
    });
    let win = zx && zy && zz && t0 < t1 && (t0 as i128) * e1 < h1 && (t0 as i128) * e2 < h2 && (
    t0 as i128) * e3 < h3 && l1 < (t1 as i128) * e1 && l2 < (t1 as i128) * e2 && l3 < (t1 as i128)
        * e3;
    if !win {
        return false;
    }
    let pair = if strict {
        l1 * e1 < h1 * e1 && l1 * e2 < h2 * e1 && l1 * e3 < h3 * e1 && l2 * e1 < h1 * e2 && l2 * e2
            < h2 * e2 && l2 * e3 < h3 * e2 && l3 * e1 < h1 * e3 && l3 * e2 < h2 * e3 && l3 * e3
            < h3 * e3
    } else {
        l1 * e1 <= h1 * e1 && l1 * e2 <= h2 * e1 && l1 * e3 <= h3 * e1 && l2 * e1 <= h1 * e2 && l2
            * e2 <= h2 * e2 && l2 * e3 <= h3 * e2 && l3 * e1 <= h1 * e3 && l3 * e2 <= h2 * e3 && l3
            * e3 <= h3 * e3
    };
    pair
}

/// Decide `pt_in_box` for an integer parameter, exactly.
pub(crate) fn guard_box(bb: &AABB, ray: &Ray, t: i64) -> (res: bool)
    requires
        box_wf(*bb),
        ray_wf(*ray),
    ensures
        res == pt_in_box(*ray, t as int, *bb),
{
    proof {
        crate::math::lemma_i128_products();
    }
    let ti = t as i128;
    let lx = ((bb.min.x as i128) - (ray.origin.x as i128)) * (SCALE as i128);
    let hx = ((bb.max.x as i128) - (ray.origin.x as i128)) * (SCALE as i128);
    let ly = ((bb.min.y as i128) - (ray.origin.y as i128)) * (SCALE as i128);
    let hy = ((bb.max.y as i128) - (ray.origin.y as i128)) * (SCALE as i128);
    let lz = ((bb.min.z as i128) - (ray.origin.z as i128)) * (SCALE as i128);
    let hz = ((bb.max.z as i128) - (ray.origin.z as i128)) * (SCALE as i128);
    let px = (ray.direction.x as i128) * ti;
    let py = (ray.direction.y as i128) * ti;
    let pz = (ray.direction.z as i128) * ti;
    lx <= px && px <= hx && ly <= py && py <= hy && lz <= pz && pz <= hz
}

/// The truncated point at a parameter whose exact point lies in a box:
/// each component lands within one unit of the box extent.
pub(crate) fn at_in_box(ray: &Ray, t: i64, bb: &AABB) -> (p: Vec3)
    requires
        box_wf(*bb),
        ray_wf(*ray),
        pt_in_box(*ray, t as int, *bb),
    ensures
        p.x == crate::ray::at_x(*ray, t as int),
        p.y == crate::ray::at_y(*ray, t as int),
        p.z == crate::ray::at_z(*ray, t as int),
        bb.min.x - 1 <= p.x <= bb.max.x + 1,
        bb.min.y - 1 <= p.y <= bb.max.y + 1,
        bb.min.z - 1 <= p.z <= bb.max.z + 1,
{
    proof {
        crate::math::lemma_i128_products();
        crate::math::lemma_sdiv_between(
            (ray.direction.x as int) * (t as int),
            SCALE as int,
            bb.min.x - ray.origin.x,
            bb.max.x - ray.origin.x,
        );
        crate::math::lemma_sdiv_between(
            (ray.direction.y as int) * (t as int),
            SCALE as int,
            bb.min.y - ray.origin.y,
            bb.max.y - ray.origin.y,
        );
        crate::math::lemma_sdiv_between(
            (ray.direction.z as int) * (t as int),
            SCALE as int,
            bb.min.z - ray.origin.z,
            bb.max.z - ray.origin.z,
        );
    }
    let ti = t as i128;
    let sx = crate::math::div_trunc((ray.direction.x as i128) * ti, SCALE as i128);
    let sy = crate::math::div_trunc((ray.direction.y as i128) * ti, SCALE as i128);
    let sz = crate::math::div_trunc((ray.direction.z as i128) * ti, SCALE as i128);
    Vec3 {
        x: ray.origin.x + (sx as i64),
        y: ray.origin.y + (sy as i64),
        z: ray.origin.z + (sz as i64),
    }
}

/// `inner` lies entirely within `outer` (closed inclusion per axis).
pub open spec fn box_contains_box(outer: AABB, inner: AABB) -> bool {
    &&& outer.min.x <= inner.min.x
    &&& inner.max.x <= outer.max.x
    &&& outer.min.y <= inner.min.y
    &&& inner.max.y <= outer.max.y
    &&& outer.min.z <= inner.min.z
    &&& inner.max.z <= outer.max.z
}

pub proof fn lemma_pt_monotone(r: Ray, t: int, inner: AABB, outer: AABB)
    requires
        pt_in_box(r, t, inner),
        box_contains_box(outer, inner),
    ensures
        pt_in_box(r, t, outer),
{
}

/// A ray parameter lying in two boxes at once makes the boxes overlap.
pub proof fn lemma_common_point_overlaps(r: Ray, t: int, a: AABB, b: AABB)
    requires
        pt_in_box(r, t, a),
        pt_in_box(r, t, b),
    ensures
        spec_overlaps(a, b),
{
}

/// Rational chaining: two bounds sharing a witness compare pairwise.
proof fn lemma_rat_chain(l: int, el: int, h: int, eh: int, t: int)
    by (nonlinear_arith)
    requires
        el > 0,
        eh > 0,
        l <= el * t,
        eh * t <= h,
    ensures
        l * eh <= h * el,
{
}

proof fn lemma_lo_strict(t0: int, t: int, e: int, h: int)
    by (nonlinear_arith)
    requires
        t0 < t,
        e > 0,
        e * t <= h,
    ensures
        t0 * e < h,
{
}

proof fn lemma_hi_strict(t1: int, t: int, e: int, l: int)
    by (nonlinear_arith)
    requires
        t < t1,
        e > 0,
        l <= e * t,
    ensures
        l < t1 * e,
{
}

/// One axis of `pt_in_box` in normalized form: the parameter sits between
/// the axis bounds over the positive denominator.
proof fn lemma_axis_sat(o: int, d: int, mn: int, mx: int, t: int)
    requires
        (mn - o) * SCALE <= d * t,
        d * t <= (mx - o) * SCALE,
        i64::MIN <= t <= i64::MAX,
        -BOX_MAX <= o <= BOX_MAX,
        -BOX_MAX <= d <= BOX_MAX,
        -BOX_MAX <= mn <= BOX_MAX,
        -BOX_MAX <= mx <= BOX_MAX,
    ensures
        ax_lo(o, d, mn, mx) <= ax_den(d) * t,
        ax_den(d) * t <= ax_hi(o, d, mn, mx),
        d == 0 ==> mn <= o <= mx,
{
    if d < 0 {
        assert((-d) * t == -(d * t)) by (nonlinear_arith);
    } else if d == 0 {
        assert(0 * t == 0) by (nonlinear_arith);
        assert(1 * t == t) by (nonlinear_arith);
    }
}

/// An exact integer parameter inside the closed box and the open window
/// forces the closed slab test to accept.
pub proof fn lemma_pt_implies_slab(b: AABB, r: Ray, t0: int, t1: int, t: int)
    requires
        box_wf(b),
        ray_wf(r),
        pt_in_box(r, t, b),
        t0 < t,
        t < t1,
        i64::MIN <= t <= i64::MAX,
    ensures
        spec_slab(b, r, t0, t1, false),
{
    let l1 = ax_lo(r.origin.x as int, r.direction.x as int, b.min.x as int, b.max.x as int);
    let h1 = ax_hi(r.origin.x as int, r.direction.x as int, b.min.x as int, b.max.x as int);
    let e1 = ax_den(r.direction.x as int);
    let l2 = ax_lo(r.origin.y as int, r.direction.y as int, b.min.y as int, b.max.y as int);
    let h2 = ax_hi(r.origin.y as int, r.direction.y as int, b.min.y as int, b.max.y as int);
    let e2 = ax_den(r.direction.y as int);
    let l3 = ax_lo(r.origin.z as int, r.direction.z as int, b.min.z as int, b.max.z as int);
    let h3 = ax_hi(r.origin.z as int, r.direction.z as int, b.min.z as int, b.max.z as int);
    let e3 = ax_den(r.direction.z as int);
    lemma_axis_sat(
        r.origin.x as int, r.direction.x as int, b.min.x as int, b.max.x as int, t,
    );
    lemma_axis_sat(
        r.origin.y as int, r.direction.y as int, b.min.y as int, b.max.y as int, t,
    );
    lemma_axis_sat(
        r.origin.z as int, r.direction.z as int, b.min.z as int, b.max.z as int, t,
    );
    lemma_lo_strict(t0, t, e1, h1);
    lemma_lo_strict(t0, t, e2, h2);
    lemma_lo_strict(t0, t, e3, h3);
    lemma_hi_strict(t1, t, e1, l1);
    lemma_hi_strict(t1, t, e2, l2);
    lemma_hi_strict(t1, t, e3, l3);
    lemma_rat_chain(l1, e1, h1, e1, t);
    lemma_rat_chain(l1, e1, h2, e2, t);
    lemma_rat_chain(l1, e1, h3, e3, t);
    lemma_rat_chain(l2, e2, h1, e1, t);
    lemma_rat_chain(l2, e2, h2, e2, t);
    lemma_rat_chain(l2, e2, h3, e3, t);
    lemma_rat_chain(l3, e3, h1, e1, t);
    lemma_rat_chain(l3, e3, h2, e2, t);
    lemma_rat_chain(l3, e3, h3, e3, t);
}

/// The exact point at rational parameter `tn / td` lies strictly inside
/// the box (componentwise, scaled through by `SCALE * td`).
pub open spec fn pt_strictly_in_box(r: Ray, tn: int, td: int, b: AABB) -> bool {
    &&& (b.min.x - r.origin.x) * SCALE * td < r.direction.x * tn
    &&& r.direction.x * tn < (b.max.x - r.origin.x) * SCALE * td
    &&& (b.min.y - r.origin.y) * SCALE * td < r.direction.y * tn
    &&& r.direction.y * tn < (b.max.y - r.origin.y) * SCALE * td
    &&& (b.min.z - r.origin.z) * SCALE * td < r.direction.z * tn
    &&& r.direction.z * tn < (b.max.z - r.origin.z) * SCALE * td
}

/// Rational chaining, strict: `l/el < t` and `t < h/eh` give `l/el < h/eh`.
proof fn lemma_rat_chain_strict(l: int, el: int, h: int, eh: int, tn: int, td: int)
    by (nonlinear_arith)
    requires
        el > 0,
        eh > 0,
        td > 0,
        l * td < el * tn,
        eh * tn < h * td,
    ensures
        l * eh < h * el,
{
}

/// The window start sits below an upper bound that the witness obeys.
proof fn lemma_win_lo(t0: int, e: int, h: int, tn: int, td: int)
    by (nonlinear_arith)
    requires
        e > 0,
        td > 0,
        t0 * td < tn,
        e * tn < h * td,
    ensures
        t0 * e < h,
{
}

/// A lower bound the witness obeys sits below the window end.
proof fn lemma_win_hi(t1: int, e: int, l: int, tn: int, td: int)
    by (nonlinear_arith)
    requires
        e > 0,
        td > 0,
        tn < t1 * td,
        l * td < e * tn,
    ensures
        l < t1 * e,
{
}

/// One axis of a strict rational witness in normalized form.
proof fn lemma_axis_sat_rat(o: int, d: int, mn: int, mx: int, tn: int, td: int)
    requires
        (mn - o) * SCALE * td < d * tn,
        d * tn < (mx - o) * SCALE * td,
        td > 0,
        -0x8000000000000000 <= tn <= 0x8000000000000000,
        -BOX_MAX <= o <= BOX_MAX,
        -BOX_MAX <= d <= BOX_MAX,
        -BOX_MAX <= mn <= BOX_MAX,
        -BOX_MAX <= mx <= BOX_MAX,
    ensures
        ax_lo(o, d, mn, mx) * td < ax_den(d) * tn,
        ax_den(d) * tn < ax_hi(o, d, mn, mx) * td,
        d == 0 ==> mn < o < mx,
{
    if d < 0 {
        assert((-d) * tn == -(d * tn) && (o - mx) * SCALE * td == -((mx - o) * SCALE * td) && (o
            - mn) * SCALE * td == -((mn - o) * SCALE * td)) by (nonlinear_arith);
    } else if d == 0 {
        assert(0 * tn == 0) by (nonlinear_arith);
        assert(1 * tn == tn) by (nonlinear_arith);
        assert(mn < o < mx) by (nonlinear_arith)
            requires
                (mn - o) * SCALE * td < 0,
                0 < (mx - o) * SCALE * td,
                td > 0,
                SCALE == 65536,
        ;
        assert(-(INF_NUM as int) * td < tn && tn < (INF_NUM as int) * td) by (nonlinear_arith)
            requires
                td > 0,
                -0x8000000000000000 <= tn <= 0x8000000000000000,
                INF_NUM == 0x1000000000000000000000000,
        ;
    }
}

/// Soundness half of the slab characterization: a rational parameter
/// strictly inside the box and the open window makes the strict slab test
/// accept.
pub proof fn lemma_witness_implies_hit(b: AABB, r: Ray, t0: int, t1: int, tn: int, td: int)
    requires
        box_wf(b),
        ray_wf(r),
        td > 0,
        -0x8000000000000000 <= tn <= 0x8000000000000000,
        t0 * td < tn,
        tn < t1 * td,
        pt_strictly_in_box(r, tn, td, b),
    ensures
        spec_slab(b, r, t0, t1, true),
{
    let l1 = ax_lo(r.origin.x as int, r.direction.x as int, b.min.x as int, b.max.x as int);
    let h1 = ax_hi(r.origin.x as int, r.direction.x as int, b.min.x as int, b.max.x as int);
    let e1 = ax_den(r.direction.x as int);
    let l2 = ax_lo(r.origin.y as int, r.direction.y as int, b.min.y as int, b.max.y as int);
    let h2 = ax_hi(r.origin.y as int, r.direction.y as int, b.min.y as int, b.max.y as int);
    let e2 = ax_den(r.direction.y as int);
    let l3 = ax_lo(r.origin.z as int, r.direction.z as int, b.min.z as int, b.max.z as int);
    let h3 = ax_hi(r.origin.z as int, r.direction.z as int, b.min.z as int, b.max.z as int);
    let e3 = ax_den(r.direction.z as int);
    lemma_axis_sat_rat(
        r.origin.x as int, r.direction.x as int, b.min.x as int, b.max.x as int, tn, td,
    );
    lemma_axis_sat_rat(
        r.origin.y as int, r.direction.y as int, b.min.y as int, b.max.y as int, tn, td,
    );
    lemma_axis_sat_rat(
        r.origin.z as int, r.direction.z as int, b.min.z as int, b.max.z as int, tn, td,
    );
    assert(t0 < t1) by (nonlinear_arith)
        requires
            td > 0,
            t0 * td < tn,
            tn < t1 * td,
    ;
    lemma_win_lo(t0, e1, h1, tn, td);
    lemma_win_lo(t0, e2, h2, tn, td);
    lemma_win_lo(t0, e3, h3, tn, td);
    lemma_win_hi(t1, e1, l1, tn, td);
    lemma_win_hi(t1, e2, l2, tn, td);
    lemma_win_hi(t1, e3, l3, tn, td);
    lemma_rat_chain_strict(l1, e1, h1, e1, tn, td);
    lemma_rat_chain_strict(l1, e1, h2, e2, tn, td);
    lemma_rat_chain_strict(l1, e1, h3, e3, tn, td);
    lemma_rat_chain_strict(l2, e2, h1, e1, tn, td);
    lemma_rat_chain_strict(l2, e2, h2, e2, tn, td);
    lemma_rat_chain_strict(l2, e2, h3, e3, tn, td);
    lemma_rat_chain_strict(l3, e3, h1, e1, tn, td);
    lemma_rat_chain_strict(l3, e3, h2, e2, tn, td);
    lemma_rat_chain_strict(l3, e3, h3, e3, tn, td);
}

/// A strict midpoint between two ordered rationals.
proof fn lemma_rat_mid(ln: int, ld: int, un: int, ud: int)
    by (nonlinear_arith)
    requires
        ld > 0,
        ud > 0,
        ln * ud < un * ld,
    ensures
        2 * ld * ud > 0,
        ln * (2 * ld * ud) < (ln * ud + un * ld) * ld,
        (ln * ud + un * ld) * ud < un * (2 * ld * ud),
{
}

/// Transitivity from a dominated lower bound through the witness.
proof fn lemma_lower_through(l: int, e: int, ln: int, ld: int, tn: int, td: int)
    by (nonlinear_arith)
    requires
        ld > 0,
        e > 0,
        td > 0,
        l * ld <= ln * e,
        ln * td < tn * ld,
    ensures
        l * td < e * tn,
{
}

/// Transitivity from the witness through a dominating upper bound.
proof fn lemma_upper_through(h: int, e: int, un: int, ud: int, tn: int, td: int)
    by (nonlinear_arith)
    requires
        ud > 0,
        e > 0,
        td > 0,
        un * e <= h * ud,
        tn * ud < un * td,
    ensures
        e * tn < h * td,
{
}

/// Denormalize one axis: normalized strict bounds give the strict point
/// containment for that axis.
proof fn lemma_axis_denorm(o: int, d: int, mn: int, mx: int, tn: int, td: int)
    requires
        td > 0,
        ax_lo(o, d, mn, mx) * td < ax_den(d) * tn,
        ax_den(d) * tn < ax_hi(o, d, mn, mx) * td,
        d == 0 ==> mn < o < mx,
        -BOX_MAX <= o <= BOX_MAX,
        -BOX_MAX <= mn <= BOX_MAX,
        -BOX_MAX <= mx <= BOX_MAX,
    ensures
        (mn - o) * SCALE * td < d * tn,
        d * tn < (mx - o) * SCALE * td,
{
    if d < 0 {
        assert((-d) * tn == -(d * tn) && (o - mx) * SCALE * td == -((mx - o) * SCALE * td) && (o
            - mn) * SCALE * td == -((mn - o) * SCALE * td)) by (nonlinear_arith);
    } else if d == 0 {
        assert(0 * tn == 0) by (nonlinear_arith);
        assert((mn - o) * SCALE * td < 0 && 0 < (mx - o) * SCALE * td) by (nonlinear_arith)
            requires
                mn < o < mx,
                td > 0,
                SCALE == 65536,
        ;
    }
}

/// Completeness half of the slab characterization: when the strict slab
/// test accepts, a rational parameter strictly inside the box and the
/// window exists.
pub proof fn lemma_hit_implies_witness(b: AABB, r: Ray, t0: int, t1: int)
    requires
        box_wf(b),
        ray_wf(r),
        spec_slab(b, r, t0, t1, true),
    ensures
        exists|tn: int, td: int|
            #![trigger pt_strictly_in_box(r, tn, td, b)]
            td > 0 && t0 * td < tn && tn < t1 * td && pt_strictly_in_box(r, tn, td, b),
{
    let l1 = ax_lo(r.origin.x as int, r.direction.x as int, b.min.x as int, b.max.x as int);
    let h1 = ax_hi(r.origin.x as int, r.direction.x as int, b.min.x as int, b.max.x as int);
    let e1 = ax_den(r.direction.x as int);
    let l2 = ax_lo(r.origin.y as int, r.direction.y as int, b.min.y as int, b.max.y as int);
    let h2 = ax_hi(r.origin.y as int, r.direction.y as int, b.min.y as int, b.max.y as int);
    let e2 = ax_den(r.direction.y as int);
    let l3 = ax_lo(r.origin.z as int, r.direction.z as int, b.min.z as int, b.max.z as int);
    let h3 = ax_hi(r.origin.z as int, r.direction.z as int, b.min.z as int, b.max.z as int);
    let e3 = ax_den(r.direction.z as int);
    // select the greatest lower bound among the window start and the axes
    let mut_ln = if l1 * 1 > t0 * e1 {
        (l1, e1)
    } else {
        (t0, 1int)
    };
    let lb2 = if l2 * mut_ln.1 > mut_ln.0 * e2 {
        (l2, e2)
    } else {
        mut_ln
    };
    let lb = if l3 * lb2.1 > lb2.0 * e3 {
        (l3, e3)
    } else {
        lb2
    };
    let ln = lb.0;
    let ld = lb.1;
    // select the least upper bound among the window end and the axes
    let ub1 = if h1 * 1 < t1 * e1 {
        (h1, e1)
    } else {
        (t1, 1int)
    };
    let ub2 = if h2 * ub1.1 < ub1.0 * e2 {
        (h2, e2)
    } else {
        ub1
    };
    let ub = if h3 * ub2.1 < ub2.0 * e3 {
        (h3, e3)
    } else {
        ub2
    };
    let un = ub.0;
    let ud = ub.1;
    assert(ld > 0 && ud > 0);
    // every lower bound is dominated by the selected one
    assert(t0 * ld <= ln * 1 && l1 * ld <= ln * e1 && l2 * ld <= ln * e2 && l3 * ld <= ln * e3) by {
        lemma_max_steps(t0, l1, l2, l3, e1, e2, e3, ln, ld);
    }
    assert(un * 1 <= t1 * ud && un * e1 <= h1 * ud && un * e2 <= h2 * ud && un * e3 <= h3 * ud) by {
        lemma_min_steps(t1, h1, h2, h3, e1, e2, e3, un, ud);
    }
    // the selected bounds are strictly ordered: every cross pair is a
    // conjunct of the slab formula
    assert(ln * ud < un * ld) by {
        lemma_cross_cases(
            t0, t1, l1, h1, e1, l2, h2, e2, l3, h3, e3, ln, ld, un, ud,
        );
    }
    lemma_rat_mid(ln, ld, un, ud);
    let tn = ln * ud + un * ld;
    let td = 2 * ld * ud;
    lemma_lower_through(t0, 1, ln, ld, tn, td);
    lemma_lower_through(l1, e1, ln, ld, tn, td);
    lemma_lower_through(l2, e2, ln, ld, tn, td);
    lemma_lower_through(l3, e3, ln, ld, tn, td);
    lemma_upper_through(t1, 1, un, ud, tn, td);
    lemma_upper_through(h1, e1, un, ud, tn, td);
    lemma_upper_through(h2, e2, un, ud, tn, td);
    lemma_upper_through(h3, e3, un, ud, tn, td);
    assert(1 * tn == tn && t0 * td < 1 * tn && 1 * tn < t1 * td) by (nonlinear_arith)
        requires
            t0 * td < 1 * tn,
            1 * tn < t1 * td,
    ;
    lemma_axis_denorm(
        r.origin.x as int, r.direction.x as int, b.min.x as int, b.max.x as int, tn, td,
    );
    lemma_axis_denorm(
        r.origin.y as int, r.direction.y as int, b.min.y as int, b.max.y as int, tn, td,
    );
    lemma_axis_denorm(
        r.origin.z as int, r.direction.z as int, b.min.z as int, b.max.z as int, tn, td,
    );
    assert(td > 0 && t0 * td < tn && tn < t1 * td && pt_strictly_in_box(r, tn, td, b));
}

/// The sequential maximum dominates every candidate lower bound.
proof fn lemma_max_steps(
    t0: int,
    l1: int,
    l2: int,
    l3: int,
    e1: int,
    e2: int,
    e3: int,
    ln: int,
    ld: int,
)
    requires
        e1 > 0,
        e2 > 0,
        e3 > 0,
        ({
            let s1 = if l1 * 1 > t0 * e1 {
                (l1, e1)
            } else {
                (t0, 1int)
            };
            let s2 = if l2 * s1.1 > s1.0 * e2 {
                (l2, e2)
            } else {
                s1
            };
            let s3 = if l3 * s2.1 > s2.0 * e3 {
                (l3, e3)
            } else {
                s2
            };
            ln == s3.0 && ld == s3.1
        }),
    ensures
        ld > 0,
        t0 * ld <= ln * 1,
        l1 * ld <= ln * e1,
        l2 * ld <= ln * e2,
        l3 * ld <= ln * e3,
{
    let s1 = if l1 * 1 > t0 * e1 {
        (l1, e1)
    } else {
        (t0, 1int)
    };
    let s2 = if l2 * s1.1 > s1.0 * e2 {
        (l2, e2)
    } else {
        s1
    };
    // after each step the running bound dominates everything before it
    assert(t0 * s1.1 <= s1.0 * 1 && l1 * s1.1 <= s1.0 * e1) by (nonlinear_arith)
        requires
            e1 > 0,
            s1 == (if l1 * 1 > t0 * e1 {
                (l1, e1)
            } else {
                (t0, 1int)
            }),
    ;
    assert(t0 * s2.1 <= s2.0 * 1 && l1 * s2.1 <= s2.0 * e1 && l2 * s2.1 <= s2.0 * e2)
        by (nonlinear_arith)
        requires
            e1 > 0,
            e2 > 0,
            s1.1 > 0,
            t0 * s1.1 <= s1.0 * 1,
            l1 * s1.1 <= s1.0 * e1,
            s2 == (if l2 * s1.1 > s1.0 * e2 {
                (l2, e2)
            } else {
                s1
            }),
    ;
    assert(t0 * ld <= ln * 1 && l1 * ld <= ln * e1 && l2 * ld <= ln * e2 && l3 * ld <= ln * e3)
        by (nonlinear_arith)
        requires
            e1 > 0,
            e2 > 0,
            e3 > 0,
            s2.1 > 0,
            t0 * s2.1 <= s2.0 * 1,
            l1 * s2.1 <= s2.0 * e1,
            l2 * s2.1 <= s2.0 * e2,
            (ln, ld) == (if l3 * s2.1 > s2.0 * e3 {
                (l3, e3)
            } else {
                s2
            }),
    ;
}

/// The sequential minimum is dominated by every candidate upper bound.
proof fn lemma_min_steps(
    t1: int,
    h1: int,
    h2: int,
    h3: int,
    e1: int,
    e2: int,
    e3: int,
    un: int,
    ud: int,
)
    requires
        e1 > 0,
        e2 > 0,
        e3 > 0,
        ({
            let s1 = if h1 * 1 < t1 * e1 {
                (h1, e1)
            } else {
                (t1, 1int)
            };
            let s2 = if h2 * s1.1 < s1.0 * e2 {
                (h2, e2)
            } else {
                s1
            };
            let s3 = if h3 * s2.1 < s2.0 * e3 {
                (h3, e3)
            } else {
                s2
            };
            un == s3.0 && ud == s3.1
        }),
    ensures
        ud > 0,
        un * 1 <= t1 * ud,
        un * e1 <= h1 * ud,
        un * e2 <= h2 * ud,
        un * e3 <= h3 * ud,
{
    let s1 = if h1 * 1 < t1 * e1 {
        (h1, e1)
    } else {
        (t1, 1int)
    };
    let s2 = if h2 * s1.1 < s1.0 * e2 {
        (h2, e2)
    } else {
        s1
    };
    assert(s1.0 * 1 <= t1 * s1.1 && s1.0 * e1 <= h1 * s1.1) by (nonlinear_arith)
        requires
            e1 > 0,
            s1 == (if h1 * 1 < t1 * e1 {
                (h1, e1)
            } else {
                (t1, 1int)
            }),
    ;
    assert(s2.0 * 1 <= t1 * s2.1 && s2.0 * e1 <= h1 * s2.1 && s2.0 * e2 <= h2 * s2.1)
        by (nonlinear_arith)
        requires
            e1 > 0,
            e2 > 0,
            s1.1 > 0,
            s1.0 * 1 <= t1 * s1.1,
            s1.0 * e1 <= h1 * s1.1,
            s2 == (if h2 * s1.1 < s1.0 * e2 {
                (h2, e2)
            } else {
                s1
            }),
    ;
    assert(un * 1 <= t1 * ud && un * e1 <= h1 * ud && un * e2 <= h2 * ud && un * e3 <= h3 * ud)
        by (nonlinear_arith)
        requires
            e1 > 0,
            e2 > 0,
            e3 > 0,
            s2.1 > 0,
            s2.0 * 1 <= t1 * s2.1,
            s2.0 * e1 <= h1 * s2.1,
            s2.0 * e2 <= h2 * s2.1,
            (un, ud) == (if h3 * s2.1 < s2.0 * e3 {
                (h3, e3)
            } else {
                s2
            }),
    ;
}

/// Every selected lower/upper pair is ordered: each of the sixteen cases
/// is one pairwise conjunct of the accepting slab formula.
proof fn lemma_cross_cases(
    t0: int,
    t1: int,
    l1: int,
    h1: int,
    e1: int,
    l2: int,
    h2: int,
    e2: int,
    l3: int,
    h3: int,
    e3: int,
    ln: int,
    ld: int,
    un: int,
    ud: int,
)
    requires
        e1 > 0,
        e2 > 0,
        e3 > 0,
        (ln, ld) == (t0, 1int) || (ln, ld) == (l1, e1) || (ln, ld) == (l2, e2) || (ln, ld) == (
            l3,
            e3,
        ),
        (un, ud) == (t1, 1int) || (un, ud) == (h1, e1) || (un, ud) == (h2, e2) || (un, ud) == (
            h3,
            e3,
        ),
        t0 < t1,
        t0 * e1 < h1,
        t0 * e2 < h2,
        t0 * e3 < h3,
        l1 < t1 * e1,
        l2 < t1 * e2,
        l3 < t1 * e3,
        l1 * e1 < h1 * e1,
        l1 * e2 < h2 * e1,
        l1 * e3 < h3 * e1,
        l2 * e1 < h1 * e2,
        l2 * e2 < h2 * e2,
        l2 * e3 < h3 * e2,
        l3 * e1 < h1 * e3,
        l3 * e2 < h2 * e3,
        l3 * e3 < h3 * e3,
    ensures
        ln * ud < un * ld,
{
}

/// Numerators stay within `INF_NUM` for well-formed boxes and rays.
proof fn lemma_axis_num_range(o: int, d: int, mn: int, mx: int)
    requires
        -BOX_MAX <= o <= BOX_MAX,
        -BOX_MAX <= d <= BOX_MAX,
        -BOX_MAX <= mn <= BOX_MAX,
        -BOX_MAX <= mx <= BOX_MAX,
    ensures
        -INF_NUM <= ax_lo(o, d, mn, mx) <= INF_NUM,
        -INF_NUM <= ax_hi(o, d, mn, mx) <= INF_NUM,
        0 < ax_den(d) <= BOX_MAX,
{
}

/// All products appearing in the slab formula fit comfortably in `i128`.
proof fn lemma_slab_products(
    l1: int, h1: int, e1: int,
    l2: int, h2: int, e2: int,
    l3: int, h3: int, e3: int,
    t0: int, t1: int,
)
    requires
        -INF_NUM <= l1 <= INF_NUM,
        -INF_NUM <= h1 <= INF_NUM,
        -INF_NUM <= l2 <= INF_NUM,
        -INF_NUM <= h2 <= INF_NUM,
        -INF_NUM <= l3 <= INF_NUM,
        -INF_NUM <= h3 <= INF_NUM,
        0 < e1 <= BOX_MAX,
        0 < e2 <= BOX_MAX,
        0 < e3 <= BOX_MAX,
        i64::MIN <= t0 <= i64::MAX,
        i64::MIN <= t1 <= i64::MAX,
    ensures
        forall|x: int, e: int|
            -INF_NUM <= x <= INF_NUM && 0 < e <= BOX_MAX ==> -(INF_NUM as int * BOX_MAX as int)
                <= #[trigger] (x * e) <= INF_NUM as int * BOX_MAX as int,
        forall|t: int, e: int|
            i64::MIN <= t <= i64::MAX && 0 < e <= BOX_MAX ==> -(INF_NUM as int * BOX_MAX as int)
                <= #[trigger] (t * e) <= INF_NUM as int * BOX_MAX as int,
{
    assert forall|x: int, e: int|
        -INF_NUM <= x <= INF_NUM && 0 < e <= BOX_MAX implies -(INF_NUM as int * BOX_MAX as int)
        <= #[trigger] (x * e) <= INF_NUM as int * BOX_MAX as int by {
        assert(-(INF_NUM as int * BOX_MAX as int) <= x * e <= INF_NUM as int * BOX_MAX as int)
            by (nonlinear_arith)
            requires
                -INF_NUM <= x <= INF_NUM,
                0 < e <= BOX_MAX,
        ;
    }
    assert forall|t: int, e: int|
        i64::MIN <= t <= i64::MAX && 0 < e <= BOX_MAX implies -(INF_NUM as int * BOX_MAX as int)
        <= #[trigger] (t * e) <= INF_NUM as int * BOX_MAX as int by {
        assert(-(INF_NUM as int * BOX_MAX as int) <= t * e <= INF_NUM as int * BOX_MAX as int)
            by (nonlinear_arith)
            requires
                i64::MIN <= t <= i64::MAX,
                0 < e <= BOX_MAX,
                INF_NUM >= 0x8000000000000000,
        ;
    }
}

} // verus!

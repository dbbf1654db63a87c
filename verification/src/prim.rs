//! The closed set of scene primitives and their common hit interface.

use vstd::prelude::*;
use crate::math::{sdiv, spec_isqrt, SCALE};
use crate::vec3::in_range;
use crate::ray::{Ray, ray_wf};
use crate::aabb::{AABB, pt_in_box, box_wf, spec_overlaps};
use crate::hit::HitRecord;
use crate::sphere::{Sphere, sphere_wf, spec_sphere_aabb, spec_sphere_hit_t, sphere_rec_ok};
use crate::triangle::{
    Triangle, triangle_wf, spec_tri_aabb, spec_tri_qbox, spec_triangle_hit_t, tri_rec_ok,
};

verus! {

#[derive(Clone, Copy, PartialEq, Eq, Structural, Debug)]
pub enum HittableObject {
    SphereObj(Sphere),
    TriangleObj(Triangle),
}

pub open spec fn prim_wf(p: HittableObject) -> bool {
    match p {
        HittableObject::SphereObj(s) => sphere_wf(s),
        HittableObject::TriangleObj(t) => triangle_wf(t),
    }
}

pub open spec fn prim_aabb(p: HittableObject) -> AABB {
    match p {
        HittableObject::SphereObj(s) => spec_sphere_aabb(s),
        HittableObject::TriangleObj(t) => spec_tri_aabb(t),
    }
}

/// The box the spatial index files a primitive under: the sphere's box is
/// already bias-inflated, the triangle's exact extent gains the bias here.
pub open spec fn prim_qbox(p: HittableObject) -> AABB {
    match p {
        HittableObject::SphereObj(s) => spec_sphere_aabb(s),
        HittableObject::TriangleObj(t) => spec_tri_qbox(t),
    }
}

/// The hit parameter a primitive reports inside the window `(t0, t1)`.
pub open spec fn prim_hit_t(p: HittableObject, r: Ray, t0: int, t1: int) -> Option<int> {
    match p {
        HittableObject::SphereObj(s) => spec_sphere_hit_t(s, r, t0, t1),
        HittableObject::TriangleObj(t) => spec_triangle_hit_t(t, r, t0, t1),
    }
}

/// The record fields a hit of this primitive must carry.
pub open spec fn prim_rec_ok(p: HittableObject, r: Ray, rec: HitRecord) -> bool {
    match p {
        HittableObject::SphereObj(s) => sphere_rec_ok(s, r, rec),
        HittableObject::TriangleObj(t) => tri_rec_ok(t, r, rec),
    }
}

impl HittableObject {
    pub fn get_aabb(&self) -> (b: AABB)
        requires
            prim_wf(*self),
        ensures
            b == prim_aabb(*self),
            box_wf(b),
    {
        match self {
            HittableObject::SphereObj(s) => s.get_aabb(),
            HittableObject::TriangleObj(t) => t.get_aabb(),
        }
    }

    /// The (possibly inflated) box the octree files this primitive under.
    pub(crate) fn query_box(&self) -> (b: AABB)
        requires
            prim_wf(*self),
        ensures
            b == prim_qbox(*self),
            box_wf(b),
    {
        match self {
            HittableObject::SphereObj(s) => s.get_aabb(),
            HittableObject::TriangleObj(t) => t.query_box(),
        }
    }

    /// Dispatch the intersection test by the primitive's kind.
    pub fn hit(&self, ray: &Ray, t_min: i64, t_max: i64) -> (res: Option<HitRecord>)
        requires
            prim_wf(*self),
            ray_wf(*ray),
        ensures
            match res {
                Some(rec) => {
                    &&& prim_hit_t(*self, *ray, t_min as int, t_max as int) == Some(rec.t as int)
                    &&& prim_rec_ok(*self, *ray, rec)
                    &&& t_min < rec.t < t_max
                },
                None => prim_hit_t(*self, *ray, t_min as int, t_max as int) is None,
            },
    {
        match self {
            HittableObject::SphereObj(s) => s.hit(ray, t_min, t_max),
            HittableObject::TriangleObj(t) => t.hit(ray, t_min, t_max),
        }
    }
}

impl AABB {
    /// Whether a primitive's bounding box overlaps this box.
    pub fn inside(&self, obj: &HittableObject) -> (res: bool)
        requires
            prim_wf(*obj),
        ensures
            res == spec_overlaps(prim_aabb(*obj), *self),
    {
        let bb = obj.get_aabb();
        bb.overlaps(self)
    }
}

/// A reported hit lies inside the window and inside the primitive's box,
/// and only a ray with a nonzero direction can produce one.
pub proof fn lemma_prim_hit_props(p: HittableObject, r: Ray, t0: int, t1: int, t: int)
    requires
        prim_hit_t(p, r, t0, t1) == Some(t),
    ensures
        t0 < t < t1,
        pt_in_box(r, t, prim_qbox(p)),
        crate::vec3::dot3(r.direction, r.direction) > 0,
{
    match p {
        HittableObject::SphereObj(s) => {
        },
        HittableObject::TriangleObj(tr) => {
            if r.direction.x == 0 && r.direction.y == 0 && r.direction.z == 0 {
                assert(crate::triangle::tri_det(tr, r) == 0) by (nonlinear_arith)
                    requires
                        r.direction.x == 0,
                        r.direction.y == 0,
                        r.direction.z == 0,
                        crate::triangle::tri_det(tr, r) == ({
                            let e1x = tr.p1.x - tr.p0.x;
                            let e1y = tr.p1.y - tr.p0.y;
                            let e1z = tr.p1.z - tr.p0.z;
                            let e2x = tr.p2.x - tr.p0.x;
                            let e2y = tr.p2.y - tr.p0.y;
                            let e2z = tr.p2.z - tr.p0.z;
                            let hx = r.direction.y * e2z - r.direction.z * e2y;
                            let hy = r.direction.z * e2x - r.direction.x * e2z;
                            let hz = r.direction.x * e2y - r.direction.y * e2x;
                            e1x * hx + e1y * hy + e1z * hz
                        }),
                ;
            }
            lemma_nonzero_dot(r.direction);
        },
    }
}

/// A vector with some nonzero component has a positive self dot product.
proof fn lemma_nonzero_dot(v: crate::vec3::Vec3)
    requires
        v.x != 0 || v.y != 0 || v.z != 0,
    ensures
        crate::vec3::dot3(v, v) > 0,
{
    assert(v.x * v.x >= 0 && v.y * v.y >= 0 && v.z * v.z >= 0 && (v.x != 0 ==> v.x * v.x > 0) && (
    v.y != 0 ==> v.y * v.y > 0) && (v.z != 0 ==> v.z * v.z > 0)) by (nonlinear_arith);
}

/// The fields of a reported hit record are bounded: the point sits within
/// the primitive's (inflated) box, the normal within twice the unit scale.
pub proof fn lemma_rec_bounds(p: HittableObject, r: Ray, rec: HitRecord, t0: int, t1: int)
    requires
        prim_wf(p),
        ray_wf(r),
        prim_hit_t(p, r, t0, t1) == Some(rec.t as int),
        prim_rec_ok(p, r, rec),
    ensures
        crate::vec3::in_range(rec.normal, 131073),
        crate::vec3::in_range(rec.p, 0x8001000),
{
    lemma_prim_hit_props(p, r, t0, t1, rec.t as int);
    let bb = prim_qbox(p);
    crate::octree::lemma_prim_qbox_wf(p);
    crate::math::lemma_sdiv_between(
        (r.direction.x as int) * (rec.t as int),
        SCALE as int,
        bb.min.x - r.origin.x,
        bb.max.x - r.origin.x,
    );
    crate::math::lemma_sdiv_between(
        (r.direction.y as int) * (rec.t as int),
        SCALE as int,
        bb.min.y - r.origin.y,
        bb.max.y - r.origin.y,
    );
    crate::math::lemma_sdiv_between(
        (r.direction.z as int) * (rec.t as int),
        SCALE as int,
        bb.min.z - r.origin.z,
        bb.max.z - r.origin.z,
    );
    match p {
        HittableObject::SphereObj(s) => {
            lemma_spec_unit_range(
                crate::vec3::Vec3 {
                    x: (rec.p.x - s.center.x) as i64,
                    y: (rec.p.y - s.center.y) as i64,
                    z: (rec.p.z - s.center.z) as i64,
                },
            );
        },
        HittableObject::TriangleObj(tr) => {
            crate::triangle::lemma_normal_small(tr.p0, tr.p1, tr.p2);
        },
    }
}

/// A normalized vector has components within `2 * SCALE + 1`.
pub proof fn lemma_spec_unit_range(v: crate::vec3::Vec3)
    requires
        in_range(v, 0x10000000),
    ensures
        in_range(crate::material::spec_unit(v), 131073),
{
    let d = crate::vec3::dot3(v, v);
    assert(v.x * v.x >= 0 && v.y * v.y >= 0 && v.z * v.z >= 0) by (nonlinear_arith);
    crate::math::lemma_isqrt_bounds(d);
    let len = spec_isqrt(d);
    if len > 0 {
        crate::material::lemma_unit_comp_bound(v.x as int, len);
        crate::material::lemma_unit_comp_bound(v.y as int, len);
        crate::material::lemma_unit_comp_bound(v.z as int, len);
    }
}

/// The two roots of the sphere quadratic are ordered.
proof fn lemma_sphere_roots_ordered(s: Sphere, r: Ray)
    requires
        crate::sphere::sphere_disc(s, r) > 0,
        crate::vec3::dot3(r.direction, r.direction) > 0,
    ensures
        ({
            let aa = crate::vec3::dot3(r.direction, r.direction);
            let hb = crate::sphere::sphere_half_b(s, r);
            let disc = crate::sphere::sphere_disc(s, r);
            let sq = spec_isqrt(disc);
            sdiv((-hb - sq) * SCALE, aa) <= sdiv((-hb + sq) * SCALE, aa)
        }),
{
    let aa = crate::vec3::dot3(r.direction, r.direction);
    let hb = crate::sphere::sphere_half_b(s, r);
    let disc = crate::sphere::sphere_disc(s, r);
    let sq = spec_isqrt(disc);
    crate::math::lemma_isqrt_bounds(disc);
    assert((-hb - sq) * SCALE <= (-hb + sq) * SCALE) by (nonlinear_arith)
        requires
            sq >= 0,
            SCALE == 65536,
    ;
    crate::math::lemma_sdiv_monotone((-hb - sq) * SCALE, (-hb + sq) * SCALE, aa);
}

/// Widening the far end of the window preserves a reported hit.
pub proof fn lemma_prim_hit_widen(p: HittableObject, r: Ray, t0: int, b1: int, b2: int, t: int)
    requires
        prim_hit_t(p, r, t0, b1) == Some(t),
        b1 <= b2,
    ensures
        prim_hit_t(p, r, t0, b2) == Some(t),
{
    match p {
        HittableObject::SphereObj(s) => {
            lemma_sphere_roots_ordered(s, r);
        },
        HittableObject::TriangleObj(tr) => {
        },
    }
}

/// Narrowing the far end of the window down to anything past the reported
/// hit preserves it.
pub proof fn lemma_prim_hit_narrow(p: HittableObject, r: Ray, t0: int, b1: int, b2: int, t: int)
    requires
        prim_hit_t(p, r, t0, b1) == Some(t),
        t < b2 <= b1,
    ensures
        prim_hit_t(p, r, t0, b2) == Some(t),
{
    match p {
        HittableObject::SphereObj(s) => {
            lemma_sphere_roots_ordered(s, r);
        },
        HittableObject::TriangleObj(tr) => {
        },
    }
}

} // verus!

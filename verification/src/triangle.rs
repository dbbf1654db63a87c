//! Triangles: Moller-Trumbore intersection over exact integer arithmetic.
//!
//! The barycentric tests are evaluated projectively (no division), so every
//! acceptance decision is exact; only the final parameter is truncated to
//! fixed point.

use vstd::prelude::*;
use crate::math::{sdiv, spec_isqrt, div_trunc, isqrt_u128, SCALE, EPS_FX, GEOM_MAX};
use crate::vec3::{Vec3, dot3, in_range};
use crate::ray::{Ray, ray_wf, at_x, at_y, at_z};
use crate::aabb::{AABB, pt_in_box, box_wf};
use crate::hit::{HitRecord, spec_oriented_normal, set_face_normal};
use crate::material::Material;

verus! {

#[derive(Clone, Copy, PartialEq, Eq, Structural, Debug)]
pub struct Triangle {
    pub p0: Vec3,
    pub p1: Vec3,
    pub p2: Vec3,
    pub normal: Vec3,
    pub material: Material,
    pub culling: bool,
}

pub open spec fn triangle_wf(t: Triangle) -> bool {
    &&& in_range(t.p0, GEOM_MAX as int)
    &&& in_range(t.p1, GEOM_MAX as int)
    &&& in_range(t.p2, GEOM_MAX as int)
    &&& t.normal == spec_tri_normal(t.p0, t.p1, t.p2)
    &&& crate::material::material_wf(t.material)
}

pub open spec fn imin(a: int, b: int) -> int {
    if a <= b {
        a
    } else {
        b
    }
}

pub open spec fn imax(a: int, b: int) -> int {
    if a >= b {
        a
    } else {
        b
    }
}

/// The bounding box of a triangle: the exact componentwise extent of its
/// three vertices.
pub open spec fn spec_tri_aabb(t: Triangle) -> AABB {
    AABB {
        min: Vec3 {
            x: imin(imin(t.p0.x as int, t.p1.x as int), t.p2.x as int) as i64,
            y: imin(imin(t.p0.y as int, t.p1.y as int), t.p2.y as int) as i64,
            z: imin(imin(t.p0.z as int, t.p1.z as int), t.p2.z as int) as i64,
        },
        max: Vec3 {
            x: imax(imax(t.p0.x as int, t.p1.x as int), t.p2.x as int) as i64,
            y: imax(imax(t.p0.y as int, t.p1.y as int), t.p2.y as int) as i64,
            z: imax(imax(t.p0.z as int, t.p1.z as int), t.p2.z as int) as i64,
        },
    }
}

/// The box the intersection guard and the octree work with: the vertex
/// extent inflated by the bias, so truncated hit parameters land inside
/// even for axis-flat triangles.
pub open spec fn spec_tri_qbox(t: Triangle) -> AABB {
    AABB {
        min: Vec3 {
            x: (spec_tri_aabb(t).min.x - EPS_FX) as i64,
            y: (spec_tri_aabb(t).min.y - EPS_FX) as i64,
            z: (spec_tri_aabb(t).min.z - EPS_FX) as i64,
        },
        max: Vec3 {
            x: (spec_tri_aabb(t).max.x + EPS_FX) as i64,
            y: (spec_tri_aabb(t).max.y + EPS_FX) as i64,
            z: (spec_tri_aabb(t).max.z + EPS_FX) as i64,
        },
    }
}

/// The edge cross product of a triangle, componentwise.
pub open spec fn tri_cx(p0: Vec3, p1: Vec3, p2: Vec3) -> int {
    (p1.y - p0.y) * (p2.z - p0.z) - (p1.z - p0.z) * (p2.y - p0.y)
}

pub open spec fn tri_cy(p0: Vec3, p1: Vec3, p2: Vec3) -> int {
    (p1.z - p0.z) * (p2.x - p0.x) - (p1.x - p0.x) * (p2.z - p0.z)
}

pub open spec fn tri_cz(p0: Vec3, p1: Vec3, p2: Vec3) -> int {
    (p1.x - p0.x) * (p2.y - p0.y) - (p1.y - p0.y) * (p2.x - p0.x)
}

/// The length of the edge cross product (floor of the square root).
pub open spec fn tri_len(p0: Vec3, p1: Vec3, p2: Vec3) -> int {
    let cx = tri_cx(p0, p1, p2);
    let cy = tri_cy(p0, p1, p2);
    let cz = tri_cz(p0, p1, p2);
    spec_isqrt(cx * cx + cy * cy + cz * cz)
}

/// The unit face normal: the edge cross product normalized to `SCALE`, or
/// the zero vector for a degenerate triangle (which no ray can hit).
pub open spec fn spec_tri_normal(p0: Vec3, p1: Vec3, p2: Vec3) -> Vec3 {
    let len = tri_len(p0, p1, p2);
    if len == 0 {
        Vec3 { x: 0, y: 0, z: 0 }
    } else {
        Vec3 {
            x: sdiv(tri_cx(p0, p1, p2) * SCALE, len) as i64,
            y: sdiv(tri_cy(p0, p1, p2) * SCALE, len) as i64,
            z: sdiv(tri_cz(p0, p1, p2) * SCALE, len) as i64,
        }
    }
}

/// The Moller-Trumbore determinant `e1 . (d x e2)` over the raw components.
pub open spec fn tri_det(t: Triangle, r: Ray) -> int {
    let e1x = t.p1.x - t.p0.x;
    let e1y = t.p1.y - t.p0.y;
    let e1z = t.p1.z - t.p0.z;
    let e2x = t.p2.x - t.p0.x;
    let e2y = t.p2.y - t.p0.y;
    let e2z = t.p2.z - t.p0.z;
    let hx = r.direction.y * e2z - r.direction.z * e2y;
    let hy = r.direction.z * e2x - r.direction.x * e2z;
    let hz = r.direction.x * e2y - r.direction.y * e2x;
    e1x * hx + e1y * hy + e1z * hz
}

/// Moller-Trumbore, exactly: back-face culling against the scaled window
/// start, then the barycentric tests with the determinant's sign folded in,
/// then the window and containment tests on the truncated parameter.
pub open spec fn spec_triangle_hit_t(t: Triangle, r: Ray, t0: int, t1: int) -> Option<int> {
    let e1x = t.p1.x - t.p0.x;
    let e1y = t.p1.y - t.p0.y;
    let e1z = t.p1.z - t.p0.z;
    let e2x = t.p2.x - t.p0.x;
    let e2y = t.p2.y - t.p0.y;
    let e2z = t.p2.z - t.p0.z;
    let hx = r.direction.y * e2z - r.direction.z * e2y;
    let hy = r.direction.z * e2x - r.direction.x * e2z;
    let hz = r.direction.x * e2y - r.direction.y * e2x;
    let det = e1x * hx + e1y * hy + e1z * hz;
    if t.culling && det < t0 * SCALE * SCALE {
        None
    } else if det == 0 {
        None
    } else {
        let den = if det > 0 {
            det
        } else {
            -det
        };
        let sx = r.origin.x - t.p0.x;
        let sy = r.origin.y - t.p0.y;
        let sz = r.origin.z - t.p0.z;
        let uu = sx * hx + sy * hy + sz * hz;
        let up = if det > 0 {
            uu
        } else {
            -uu
        };
        if up < 0 || up > den {
            None
        } else {
            let qx = sy * e1z - sz * e1y;
            let qy = sz * e1x - sx * e1z;
            let qz = sx * e1y - sy * e1x;
            let vv = r.direction.x * qx + r.direction.y * qy + r.direction.z * qz;
            let vp = if det > 0 {
                vv
            } else {
                -vv
            };
            if vp < 0 || up + vp > den {
                None
            } else {
                let tt = e2x * qx + e2y * qy + e2z * qz;
                let tp = if det > 0 {
                    tt
                } else {
                    -tt
                };
                let tfx = sdiv(tp * SCALE, den);
                if t0 < tfx < t1 && pt_in_box(r, tfx, spec_tri_qbox(t)) {
                    Some(tfx)
                } else {
                    None
                }
            }
        }
    }
}

/// The record a triangle hit at parameter `t` must carry.
pub open spec fn tri_rec_ok(tr: Triangle, r: Ray, rec: HitRecord) -> bool {
    let p = Vec3 {
        x: at_x(r, rec.t as int) as i64,
        y: at_y(r, rec.t as int) as i64,
        z: at_z(r, rec.t as int) as i64,
    };
    &&& rec.p == p
    &&& rec.material == tr.material
    &&& rec.front_face == (dot3(r.direction, tr.normal) < 0)
    &&& rec.normal == spec_oriented_normal(r, tr.normal)
    &&& dot3(r.direction, rec.normal) <= 0
    &&& dot3(r.direction, tr.normal) != 0 ==> dot3(r.direction, rec.normal) < 0
    &&& tri_len(tr.p0, tr.p1, tr.p2) >= SCALE ==> (SCALE - 4) * (SCALE - 4) <= dot3(
        rec.normal,
        rec.normal,
    ) <= (SCALE + 5) * (SCALE + 5)
}

/// The normalized cross product is componentwise no longer than `SCALE`.
pub proof fn lemma_normal_small(p0: Vec3, p1: Vec3, p2: Vec3)
    requires
        in_range(p0, GEOM_MAX as int),
        in_range(p1, GEOM_MAX as int),
        in_range(p2, GEOM_MAX as int),
    ensures
        in_range(spec_tri_normal(p0, p1, p2), SCALE as int),
        0 <= tri_len(p0, p1, p2) < 0x200000000000000,
        tri_len(p0, p1, p2) > 0 ==> -(SCALE as int) <= sdiv(
            tri_cx(p0, p1, p2) * SCALE,
            tri_len(p0, p1, p2),
        ) <= SCALE as int,
        tri_len(p0, p1, p2) > 0 ==> -(SCALE as int) <= sdiv(
            tri_cy(p0, p1, p2) * SCALE,
            tri_len(p0, p1, p2),
        ) <= SCALE as int,
        tri_len(p0, p1, p2) > 0 ==> -(SCALE as int) <= sdiv(
            tri_cz(p0, p1, p2) * SCALE,
            tri_len(p0, p1, p2),
        ) <= SCALE as int,
{
    let cx = tri_cx(p0, p1, p2);
    let cy = tri_cy(p0, p1, p2);
    let cz = tri_cz(p0, p1, p2);
    let em: int = 0x8000000;
    crate::math::lemma_mul_bound(p1.y - p0.y, p2.z - p0.z, em, em);
    crate::math::lemma_mul_bound(p1.z - p0.z, p2.y - p0.y, em, em);
    crate::math::lemma_mul_bound(p1.z - p0.z, p2.x - p0.x, em, em);
    crate::math::lemma_mul_bound(p1.x - p0.x, p2.z - p0.z, em, em);
    crate::math::lemma_mul_bound(p1.x - p0.x, p2.y - p0.y, em, em);
    crate::math::lemma_mul_bound(p1.y - p0.y, p2.x - p0.x, em, em);
    let sum = cx * cx + cy * cy + cz * cz;
    lemma_tri_cross_squares(cx, cy, cz);
    assert(spec_isqrt(sum) < 0x200000000000000) by {
        crate::math::lemma_isqrt_bounds(sum);
        assert(spec_isqrt(sum) < 0x200000000000000) by (nonlinear_arith)
            requires
                spec_isqrt(sum) >= 0,
                spec_isqrt(sum) * spec_isqrt(sum) <= sum,
                sum < 0x40000000000000000000000000000,
        ;
    }
    lemma_sq_le(cx, cy, cz);
    crate::math::lemma_isqrt_bounds(sum);
    let len = spec_isqrt(sum);
    if len > 0 {
        assert(-len <= cx <= len && -len <= cy <= len && -len <= cz <= len) by (nonlinear_arith)
            requires
                cx * cx <= sum,
                cy * cy <= sum,
                cz * cz <= sum,
                sum < (len + 1) * (len + 1),
                len >= 0,
        ;
        assert(-(SCALE as int * len) <= cx * SCALE <= SCALE as int * len) by (nonlinear_arith)
            requires
                -len <= cx <= len,
                SCALE == 65536,
        ;
        assert(-(SCALE as int * len) <= cy * SCALE <= SCALE as int * len) by (nonlinear_arith)
            requires
                -len <= cy <= len,
                SCALE == 65536,
        ;
        assert(-(SCALE as int * len) <= cz * SCALE <= SCALE as int * len) by (nonlinear_arith)
            requires
                -len <= cz <= len,
                SCALE == 65536,
        ;
        crate::math::lemma_sdiv_le(cx * SCALE, len, SCALE as int);
        crate::math::lemma_sdiv_le(cy * SCALE, len, SCALE as int);
        crate::math::lemma_sdiv_le(cz * SCALE, len, SCALE as int);
    }
}

proof fn lemma_sq_le(cx: int, cy: int, cz: int)
    by (nonlinear_arith)
    ensures
        cx * cx >= 0,
        cy * cy >= 0,
        cz * cz >= 0,
        cx * cx <= cx * cx + cy * cy + cz * cz,
        cy * cy <= cx * cx + cy * cy + cz * cz,
        cz * cz <= cx * cx + cy * cy + cz * cz,
{
}

impl Triangle {
    /// Construct a triangle; the face normal is computed once from the
    /// edge cross product.
    pub fn new(point1: Vec3, point2: Vec3, point3: Vec3, mat: Material, cull_back_face: bool) -> (t:
        Triangle)
        requires
            in_range(point1, GEOM_MAX as int),
            in_range(point2, GEOM_MAX as int),
            in_range(point3, GEOM_MAX as int),
            crate::material::material_wf(mat),
        ensures
            t.p0 == point1,
            t.p1 == point2,
            t.p2 == point3,
            t.material == mat,
            t.culling == cull_back_face,
            triangle_wf(t),
            tri_len(point1, point2, point3) >= SCALE ==> (SCALE - 4) * (SCALE - 4) <= dot3(
                t.normal,
                t.normal,
            ) <= (SCALE + 5) * (SCALE + 5),
            tri_len(point1, point2, point3) > 0 ==> -edge_abs_sum(point1, point2) - 3 <= dot3(
                t.normal,
                Vec3 {
                    x: (point2.x - point1.x) as i64,
                    y: (point2.y - point1.y) as i64,
                    z: (point2.z - point1.z) as i64,
                },
            ) <= edge_abs_sum(point1, point2) + 3,
            tri_len(point1, point2, point3) > 0 ==> -edge_abs_sum(point1, point3) - 3 <= dot3(
                t.normal,
                Vec3 {
                    x: (point3.x - point1.x) as i64,
                    y: (point3.y - point1.y) as i64,
                    z: (point3.z - point1.z) as i64,
                },
            ) <= edge_abs_sum(point1, point3) + 3,
    {
        proof {
            if tri_len(point1, point2, point3) >= SCALE {
                lemma_tri_normal_unit(point1, point2, point3);
            }
            if tri_len(point1, point2, point3) > 0 {
                lemma_tri_normal_orth(point1, point2, point3);
            }
        }
        proof {
            lemma_normal_small(point1, point2, point3);
            let b: int = 0x8000000;
            crate::math::lemma_mul_bound(point2.y - point1.y, point3.z - point1.z, b, b);
            crate::math::lemma_mul_bound(point2.z - point1.z, point3.y - point1.y, b, b);
            crate::math::lemma_mul_bound(point2.z - point1.z, point3.x - point1.x, b, b);
            crate::math::lemma_mul_bound(point2.x - point1.x, point3.z - point1.z, b, b);
            crate::math::lemma_mul_bound(point2.x - point1.x, point3.y - point1.y, b, b);
            crate::math::lemma_mul_bound(point2.y - point1.y, point3.x - point1.x, b, b);
        }
        let cx = ((point2.y as i128) - (point1.y as i128)) * ((point3.z as i128) - (point1.z
            as i128)) - ((point2.z as i128) - (point1.z as i128)) * ((point3.y as i128) - (point1.y
            as i128));
        let cy = ((point2.z as i128) - (point1.z as i128)) * ((point3.x as i128) - (point1.x
            as i128)) - ((point2.x as i128) - (point1.x as i128)) * ((point3.z as i128) - (point1.z
            as i128));
        let cz = ((point2.x as i128) - (point1.x as i128)) * ((point3.y as i128) - (point1.y
            as i128)) - ((point2.y as i128) - (point1.y as i128)) * ((point3.x as i128) - (point1.x
            as i128));
        proof {
            lemma_tri_cross_squares(cx as int, cy as int, cz as int);
        }
        let sum = (cx * cx + cy * cy + cz * cz) as u128;
        let len = isqrt_u128(sum) as i128;
        proof {
            crate::math::lemma_isqrt_bounds(sum as int);
            crate::math::lemma_mul_bound(cx as int, SCALE as int, 0x100000000000000, 0x10000);
            crate::math::lemma_mul_bound(cy as int, SCALE as int, 0x100000000000000, 0x10000);
            crate::math::lemma_mul_bound(cz as int, SCALE as int, 0x100000000000000, 0x10000);
            assert(spec_isqrt(sum as int) < 0x200000000000000) by (nonlinear_arith)
                requires
                    spec_isqrt(sum as int) >= 0,
                    spec_isqrt(sum as int) * spec_isqrt(sum as int) <= sum as int,
                    (sum as int) < 0x40000000000000000000000000000,
            ;
        }
        let normal = if len == 0 {
            Vec3 { x: 0, y: 0, z: 0 }
        } else {
            let nx = div_trunc(cx * (SCALE as i128), len);
            let ny = div_trunc(cy * (SCALE as i128), len);
            let nz = div_trunc(cz * (SCALE as i128), len);
            Vec3 { x: nx as i64, y: ny as i64, z: nz as i64 }
        };
        Triangle {
            p0: point1,
            p1: point2,
            p2: point3,
            normal,
            material: mat,
            culling: cull_back_face,
        }
    }

    pub fn get_aabb(&self) -> (b: AABB)
        requires
            triangle_wf(*self),
        ensures
            b == spec_tri_aabb(*self),
            box_wf(b),
    {
        let mut mnx = self.p0.x;
        let mut mny = self.p0.y;
        let mut mnz = self.p0.z;
        let mut mxx = self.p0.x;
        let mut mxy = self.p0.y;
        let mut mxz = self.p0.z;
        if self.p1.x < mnx {
            mnx = self.p1.x;
        }
        if self.p1.y < mny {
            mny = self.p1.y;
        }
        if self.p1.z < mnz {
            mnz = self.p1.z;
        }
        if self.p1.x > mxx {
            mxx = self.p1.x;
        }
        if self.p1.y > mxy {
            mxy = self.p1.y;
        }
        if self.p1.z > mxz {
            mxz = self.p1.z;
        }
        if self.p2.x < mnx {
            mnx = self.p2.x;
        }
        if self.p2.y < mny {
            mny = self.p2.y;
        }
        if self.p2.z < mnz {
            mnz = self.p2.z;
        }
        if self.p2.x > mxx {
            mxx = self.p2.x;
        }
        if self.p2.y > mxy {
            mxy = self.p2.y;
        }
        if self.p2.z > mxz {
            mxz = self.p2.z;
        }
        AABB {
            min: Vec3 { x: mnx, y: mny, z: mnz },
            max: Vec3 { x: mxx, y: mxy, z: mxz },
        }
    }

    /// The inflated box used by the guard and the spatial index.
    pub(crate) fn query_box(&self) -> (b: AABB)
        requires
            triangle_wf(*self),
        ensures
            b == spec_tri_qbox(*self),
            box_wf(b),
    {
        let bb = self.get_aabb();
        AABB {
            min: Vec3 { x: bb.min.x - EPS_FX, y: bb.min.y - EPS_FX, z: bb.min.z - EPS_FX },
            max: Vec3 { x: bb.max.x + EPS_FX, y: bb.max.y + EPS_FX, z: bb.max.z + EPS_FX },
        }
    }

    /// Ray-triangle intersection, returning exactly the hit that
    /// `spec_triangle_hit_t` prescribes.
    pub fn hit(&self, ray: &Ray, t_min: i64, t_max: i64) -> (res: Option<HitRecord>)
        requires
            triangle_wf(*self),
            ray_wf(*ray),
        ensures
            match res {
                Some(rec) => {
                    &&& spec_triangle_hit_t(*self, *ray, t_min as int, t_max as int) == Some(
                        rec.t as int,
                    )
                    &&& tri_rec_ok(*self, *ray, rec)
                    &&& t_min < rec.t < t_max
                },
                None => spec_triangle_hit_t(*self, *ray, t_min as int, t_max as int) is None,
            },
    {
        proof {
            crate::math::lemma_i128_products();
            let em: int = 0x8000000;
            let rm: int = 0x10000000;
            let sm: int = 0x20000000;
            let hm: int = 0x100000000000000;
            let qm: int = 0x200000000000000;
            let ge1x = self.p1.x - self.p0.x;
            let ge1y = self.p1.y - self.p0.y;
            let ge1z = self.p1.z - self.p0.z;
            let ge2x = self.p2.x - self.p0.x;
            let ge2y = self.p2.y - self.p0.y;
            let ge2z = self.p2.z - self.p0.z;
            let gdx = ray.direction.x as int;
            let gdy = ray.direction.y as int;
            let gdz = ray.direction.z as int;
            crate::math::lemma_mul_bound(gdy, ge2z, rm, em);
            crate::math::lemma_mul_bound(gdz, ge2y, rm, em);
            crate::math::lemma_mul_bound(gdz, ge2x, rm, em);
            crate::math::lemma_mul_bound(gdx, ge2z, rm, em);
            crate::math::lemma_mul_bound(gdx, ge2y, rm, em);
            crate::math::lemma_mul_bound(gdy, ge2x, rm, em);
            let ghx = gdy * ge2z - gdz * ge2y;
            let ghy = gdz * ge2x - gdx * ge2z;
            let ghz = gdx * ge2y - gdy * ge2x;
            crate::math::lemma_mul_bound(ge1x, ghx, em, hm);
            crate::math::lemma_mul_bound(ge1y, ghy, em, hm);
            crate::math::lemma_mul_bound(ge1z, ghz, em, hm);
            let gsx = ray.origin.x - self.p0.x;
            let gsy = ray.origin.y - self.p0.y;
            let gsz = ray.origin.z - self.p0.z;
            crate::math::lemma_mul_bound(gsx, ghx, sm, hm);
            crate::math::lemma_mul_bound(gsy, ghy, sm, hm);
            crate::math::lemma_mul_bound(gsz, ghz, sm, hm);
            crate::math::lemma_mul_bound(gsy, ge1z, sm, em);
            crate::math::lemma_mul_bound(gsz, ge1y, sm, em);
            crate::math::lemma_mul_bound(gsz, ge1x, sm, em);
            crate::math::lemma_mul_bound(gsx, ge1z, sm, em);
            crate::math::lemma_mul_bound(gsx, ge1y, sm, em);
            crate::math::lemma_mul_bound(gsy, ge1x, sm, em);
            let gqx = gsy * ge1z - gsz * ge1y;
            let gqy = gsz * ge1x - gsx * ge1z;
            let gqz = gsx * ge1y - gsy * ge1x;
            crate::math::lemma_mul_bound(gdx, gqx, rm, qm);
            crate::math::lemma_mul_bound(gdy, gqy, rm, qm);
            crate::math::lemma_mul_bound(gdz, gqz, rm, qm);
            crate::math::lemma_mul_bound(ge2x, gqx, em, qm);
            crate::math::lemma_mul_bound(ge2y, gqy, em, qm);
            crate::math::lemma_mul_bound(ge2z, gqz, em, qm);
            let gtt = ge2x * gqx + ge2y * gqy + ge2z * gqz;
            crate::math::lemma_mul_bound(gtt, SCALE as int, 0x4000000000000000000000, 0x10000);
            crate::math::lemma_mul_bound(-gtt, SCALE as int, 0x4000000000000000000000, 0x10000);
            crate::math::lemma_mul_bound(t_min as int, SCALE as int, 0x8000000000000000, 0x10000);
            crate::math::lemma_mul_bound(
                t_min as int * (SCALE as int),
                SCALE as int,
                0x80000000000000000000,
                0x10000,
            );
        }
        let e1x = (self.p1.x as i128) - (self.p0.x as i128);
        let e1y = (self.p1.y as i128) - (self.p0.y as i128);
        let e1z = (self.p1.z as i128) - (self.p0.z as i128);
        let e2x = (self.p2.x as i128) - (self.p0.x as i128);
        let e2y = (self.p2.y as i128) - (self.p0.y as i128);
        let e2z = (self.p2.z as i128) - (self.p0.z as i128);
        let dx = ray.direction().x as i128;
        let dy = ray.direction().y as i128;
        let dz = ray.direction().z as i128;
        let hx = dy * e2z - dz * e2y;
        let hy = dz * e2x - dx * e2z;
        let hz = dx * e2y - dy * e2x;
        let det = e1x * hx + e1y * hy + e1z * hz;
        if self.culling && det < (t_min as i128) * (SCALE as i128) * (SCALE as i128) {
            return None;
        }
        if det == 0 {
            return None;
        }
        let den = if det > 0 {
            det
        } else {
            -det
        };
        let sx = (ray.origin().x as i128) - (self.p0.x as i128);
        let sy = (ray.origin().y as i128) - (self.p0.y as i128);
        let sz = (ray.origin().z as i128) - (self.p0.z as i128);
        let uu = sx * hx + sy * hy + sz * hz;
        let up = if det > 0 {
            uu
        } else {
            -uu
        };
        if up < 0 || up > den {
            return None;
        }
        let qx = sy * e1z - sz * e1y;
        let qy = sz * e1x - sx * e1z;
        let qz = sx * e1y - sy * e1x;
        let vv = dx * qx + dy * qy + dz * qz;
        let vp = if det > 0 {
            vv
        } else {
            -vv
        };
        if vp < 0 || up + vp > den {
            return None;
        }
        let tt = e2x * qx + e2y * qy + e2z * qz;
        let tp = if det > 0 {
            tt
        } else {
            -tt
        };
        let tfx = div_trunc(tp * (SCALE as i128), den);
        let bb = self.query_box();
        if (t_min as i128) < tfx && tfx < (t_max as i128) && crate::aabb::guard_box(
            &bb,
            ray,
            tfx as i64,
        ) {
            let p = crate::aabb::at_in_box(ray, tfx as i64, &bb);
            proof {
                lemma_normal_small(self.p0, self.p1, self.p2);
                if tri_len(self.p0, self.p1, self.p2) >= SCALE {
                    lemma_tri_normal_unit(self.p0, self.p1, self.p2);
                }
                crate::hit::lemma_oriented_preserves_dot(*ray, self.normal);
            }
            let (front_face, normal) = set_face_normal(ray, self.normal);
            Some(
                HitRecord {
                    p,
                    normal,
                    t: tfx as i64,
                    material: self.material,
                    front_face,
                },
            )
        } else {
            None
        }
    }
}

/// Magnitude of an integer.
pub open spec fn iabs(a: int) -> int {
    if a >= 0 {
        a
    } else {
        -a
    }
}

/// The componentwise magnitude sum of an edge.
pub open spec fn edge_abs_sum(p0: Vec3, p1: Vec3) -> int {
    iabs(p1.x - p0.x) + iabs(p1.y - p0.y) + iabs(p1.z - p0.z)
}

/// The cross product of two vectors is orthogonal to the first.
proof fn lemma_cross_perp(ax: int, ay: int, az: int, bx: int, by: int, bz: int)
    by (nonlinear_arith)
    ensures
        (ay * bz - az * by) * ax + (az * bx - ax * bz) * ay + (ax * by - ay * bx) * az == 0,
        (ay * bz - az * by) * bx + (az * bx - ax * bz) * by + (ax * by - ay * bx) * bz == 0,
{
}

/// A value within `(-l, l)` times a factor stays within the factor's
/// magnitude times `l`.
proof fn lemma_mul_sandwich(diff: int, e: int, l: int)
    by (nonlinear_arith)
    requires
        l > 0,
        -l < diff < l,
    ensures
        -(l * iabs(e)) <= diff * e <= l * iabs(e),
{
}

/// Products regroup: `(a b) c == (a c) b`.
proof fn lemma_regroup3(a: int, b: int, c: int)
    by (nonlinear_arith)
    ensures
        (a * b) * c == (a * c) * b,
{
}

/// Cancel a positive factor across a strict inequality.
proof fn lemma_cancel_pos(a: int, b: int, l: int)
    by (nonlinear_arith)
    requires
        l > 0,
        a * l < l * b,
    ensures
        a < b,
{
}

/// The stored face normal is orthogonal to both edges up to the
/// per-component truncation: each dot product stays strictly below the
/// edge's componentwise magnitude sum (about `3 / SCALE` relative to the
/// scale of an exact product).
pub proof fn lemma_tri_normal_orth(p0: Vec3, p1: Vec3, p2: Vec3)
    requires
        in_range(p0, GEOM_MAX as int),
        in_range(p1, GEOM_MAX as int),
        in_range(p2, GEOM_MAX as int),
        tri_len(p0, p1, p2) > 0,
    ensures
        ({
            let n = spec_tri_normal(p0, p1, p2);
            let e1 = Vec3 {
                x: (p1.x - p0.x) as i64,
                y: (p1.y - p0.y) as i64,
                z: (p1.z - p0.z) as i64,
            };
            let e2 = Vec3 {
                x: (p2.x - p0.x) as i64,
                y: (p2.y - p0.y) as i64,
                z: (p2.z - p0.z) as i64,
            };
            &&& -edge_abs_sum(p0, p1) - 3 <= dot3(n, e1) <= edge_abs_sum(p0, p1) + 3
            &&& -edge_abs_sum(p0, p2) - 3 <= dot3(n, e2) <= edge_abs_sum(p0, p2) + 3
        }),
{
    lemma_normal_small(p0, p1, p2);
    let cx = tri_cx(p0, p1, p2);
    let cy = tri_cy(p0, p1, p2);
    let cz = tri_cz(p0, p1, p2);
    let len = tri_len(p0, p1, p2);
    let n = spec_tri_normal(p0, p1, p2);
    let nx = sdiv(cx * SCALE, len);
    let ny = sdiv(cy * SCALE, len);
    let nz = sdiv(cz * SCALE, len);
    assert(n.x as int == nx && n.y as int == ny && n.z as int == nz);
    crate::math::lemma_sdiv_mul_err(cx * SCALE, len);
    crate::math::lemma_sdiv_mul_err(cy * SCALE, len);
    crate::math::lemma_sdiv_mul_err(cz * SCALE, len);
    lemma_cross_perp(
        p1.x - p0.x,
        p1.y - p0.y,
        p1.z - p0.z,
        p2.x - p0.x,
        p2.y - p0.y,
        p2.z - p0.z,
    );
    lemma_edge_orth(
        cx, cy, cz, len, nx, ny, nz, p1.x - p0.x, p1.y - p0.y, p1.z - p0.z,
    );
    lemma_edge_orth(
        cx, cy, cz, len, nx, ny, nz, p2.x - p0.x, p2.y - p0.y, p2.z - p0.z,
    );
}

/// One edge of the orthogonality bound, over raw integers.
proof fn lemma_edge_orth(
    cx: int,
    cy: int,
    cz: int,
    len: int,
    nx: int,
    ny: int,
    nz: int,
    ex: int,
    ey: int,
    ez: int,
)
    requires
        len > 0,
        -len < nx * len - cx * SCALE < len,
        -len < ny * len - cy * SCALE < len,
        -len < nz * len - cz * SCALE < len,
        cx * ex + cy * ey + cz * ez == 0,
    ensures
        -(iabs(ex) + iabs(ey) + iabs(ez)) - 3 <= nx * ex + ny * ey + nz * ez <= iabs(ex) + iabs(
            ey,
        ) + iabs(ez) + 3,
{
    lemma_mul_sandwich(nx * len - cx * SCALE, ex, len);
    lemma_mul_sandwich(ny * len - cy * SCALE, ey, len);
    lemma_mul_sandwich(nz * len - cz * SCALE, ez, len);
    assert((nx * len - cx * SCALE) * ex == (nx * ex) * len - (cx * ex) * SCALE)
        by (nonlinear_arith);
    assert((ny * len - cy * SCALE) * ey == (ny * ey) * len - (cy * ey) * SCALE)
        by (nonlinear_arith);
    assert((nz * len - cz * SCALE) * ez == (nz * ez) * len - (cz * ez) * SCALE)
        by (nonlinear_arith);
    let d = nx * ex + ny * ey + nz * ez;
    let s = iabs(ex) + iabs(ey) + iabs(ez);
    assert((nx * ex) * len + (ny * ey) * len + (nz * ez) * len == d * len) by (nonlinear_arith)
        requires
            d == nx * ex + ny * ey + nz * ez,
    ;
    assert((cx * ex) * SCALE + (cy * ey) * SCALE + (cz * ez) * SCALE == 0) by (nonlinear_arith)
        requires
            cx * ex + cy * ey + cz * ez == 0,
            SCALE == 65536,
    ;
    assert(len * s == len * iabs(ex) + len * iabs(ey) + len * iabs(ez)) by (nonlinear_arith)
        requires
            s == iabs(ex) + iabs(ey) + iabs(ez),
    ;
    assert(-(len * s) <= d * len <= len * s);
    assert(-s - 3 <= d <= s + 3) by (nonlinear_arith)
        requires
            len > 0,
            s >= 0,
            -(len * s) <= d * len <= len * s,
    ;
}

/// Above a minimum feature size (edge cross product of length at least
/// one), the stored face normal is unit length within the fixed-point
/// tolerance.
pub proof fn lemma_tri_normal_unit(p0: Vec3, p1: Vec3, p2: Vec3)
    requires
        in_range(p0, GEOM_MAX as int),
        in_range(p1, GEOM_MAX as int),
        in_range(p2, GEOM_MAX as int),
        tri_len(p0, p1, p2) >= SCALE,
    ensures
        (SCALE - 4) * (SCALE - 4) <= dot3(
            spec_tri_normal(p0, p1, p2),
            spec_tri_normal(p0, p1, p2),
        ) <= (SCALE + 5) * (SCALE + 5),
{
    lemma_normal_small(p0, p1, p2);
    let cx = tri_cx(p0, p1, p2);
    let cy = tri_cy(p0, p1, p2);
    let cz = tri_cz(p0, p1, p2);
    let em: int = 0x8000000;
    crate::math::lemma_mul_bound(p1.y - p0.y, p2.z - p0.z, em, em);
    crate::math::lemma_mul_bound(p1.z - p0.z, p2.y - p0.y, em, em);
    crate::math::lemma_mul_bound(p1.z - p0.z, p2.x - p0.x, em, em);
    crate::math::lemma_mul_bound(p1.x - p0.x, p2.z - p0.z, em, em);
    crate::math::lemma_mul_bound(p1.x - p0.x, p2.y - p0.y, em, em);
    crate::math::lemma_mul_bound(p1.y - p0.y, p2.x - p0.x, em, em);
    let gv = Vec3 { x: cx as i64, y: cy as i64, z: cz as i64 };
    assert(gv.x as int == cx && gv.y as int == cy && gv.z as int == cz);
    assert(dot3(gv, gv) == cx * cx + cy * cy + cz * cz);
    let len = tri_len(p0, p1, p2);
    crate::math::lemma_isqrt_bounds(cx * cx + cy * cy + cz * cz);
    assert(dot3(gv, gv) >= SCALE as int * SCALE as int) by (nonlinear_arith)
        requires
            dot3(gv, gv) >= len * len,
            len >= SCALE,
            SCALE == 65536,
    ;
    crate::vec3::lemma_unit_length(gv);
    assert(spec_isqrt(dot3(gv, gv)) == len);
}

/// Squares of the raw cross components stay within the square-root range.
proof fn lemma_tri_cross_squares(cx: int, cy: int, cz: int)
    requires
        -0x100000000000000 <= cx <= 0x100000000000000,
        -0x100000000000000 <= cy <= 0x100000000000000,
        -0x100000000000000 <= cz <= 0x100000000000000,
    ensures
        0 <= cx * cx <= 0x10000000000000000000000000000,
        0 <= cy * cy <= 0x10000000000000000000000000000,
        0 <= cz * cz <= 0x10000000000000000000000000000,
{
    assert(0 <= cx * cx <= 0x10000000000000000000000000000) by (nonlinear_arith)
        requires
            -0x100000000000000 <= cx <= 0x100000000000000,
    ;
    assert(0 <= cy * cy <= 0x10000000000000000000000000000) by (nonlinear_arith)
        requires
            -0x100000000000000 <= cy <= 0x100000000000000,
    ;
    assert(0 <= cz * cz <= 0x10000000000000000000000000000) by (nonlinear_arith)
        requires
            -0x100000000000000 <= cz <= 0x100000000000000,
    ;
}

} // verus!

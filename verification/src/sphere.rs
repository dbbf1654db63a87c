//! Spheres: intersection by the quadratic formula over fixed-point integers.

use vstd::prelude::*;
use crate::math::{sdiv, spec_isqrt, div_trunc, isqrt_u128, SCALE, EPS_FX, GEOM_MAX};
use crate::vec3::{Vec3, dot3, in_range};
use crate::ray::{Ray, ray_wf, at_x, at_y, at_z};
use crate::aabb::{AABB, pt_in_box, box_wf};
use crate::hit::{HitRecord, spec_oriented_normal, set_face_normal};
use crate::material::Material;

verus! {

#[derive(Clone, Copy, PartialEq, Eq, Structural, Debug)]
pub struct Sphere {
    pub center: Vec3,
    pub radius: i64,
    pub material: Material,
}

pub open spec fn sphere_wf(s: Sphere) -> bool {
    &&& in_range(s.center, GEOM_MAX as int)
    &&& EPS_FX < s.radius <= GEOM_MAX
    &&& crate::material::material_wf(s.material)
}

/// The bounding box of a sphere: the centre offset by radius plus bias.
pub open spec fn spec_sphere_aabb(s: Sphere) -> AABB {
    AABB {
        min: Vec3 {
            x: (s.center.x - s.radius - EPS_FX) as i64,
            y: (s.center.y - s.radius - EPS_FX) as i64,
            z: (s.center.z - s.radius - EPS_FX) as i64,
        },
        max: Vec3 {
            x: (s.center.x + s.radius + EPS_FX) as i64,
            y: (s.center.y + s.radius + EPS_FX) as i64,
            z: (s.center.z + s.radius + EPS_FX) as i64,
        },
    }
}

/// The discriminant of the ray-sphere quadratic, over the raw components.
pub open spec fn sphere_disc(s: Sphere, r: Ray) -> int {
    let ocx = r.origin.x - s.center.x;
    let ocy = r.origin.y - s.center.y;
    let ocz = r.origin.z - s.center.z;
    let aa = dot3(r.direction, r.direction);
    let hb = ocx * r.direction.x + ocy * r.direction.y + ocz * r.direction.z;
    let c0 = ocx * ocx + ocy * ocy + ocz * ocz - s.radius * s.radius;
    hb * hb - aa * c0
}

pub open spec fn sphere_half_b(s: Sphere, r: Ray) -> int {
    let ocx = r.origin.x - s.center.x;
    let ocy = r.origin.y - s.center.y;
    let ocz = r.origin.z - s.center.z;
    ocx * r.direction.x + ocy * r.direction.y + ocz * r.direction.z
}

/// The parameter at which the ray meets the sphere, or nothing: the smaller
/// root of the quadratic if it lies inside the open window and its point
/// lies in the sphere's bounding box, else the larger root under the same
/// conditions, else a miss.  A non-positive discriminant or a degenerate
/// direction is a miss.
pub open spec fn spec_sphere_hit_t(s: Sphere, r: Ray, a: int, b: int) -> Option<int> {
    let aa = dot3(r.direction, r.direction);
    let hb = sphere_half_b(s, r);
    let disc = sphere_disc(s, r);
    if aa <= 0 || disc <= 0 {
        None
    } else {
        let sq = spec_isqrt(disc);
        let t1 = sdiv((-hb - sq) * SCALE, aa);
        let t2 = sdiv((-hb + sq) * SCALE, aa);
        if a < t1 < b && pt_in_box(r, t1, spec_sphere_aabb(s)) {
            Some(t1)
        } else if a < t2 < b && pt_in_box(r, t2, spec_sphere_aabb(s)) {
            Some(t2)
        } else {
            None
        }
    }
}

/// The outward normal at a surface point: the normalization of `p - c`
/// (the same direction as `(p - c) / radius`, rendered in fixed point so
/// its length is pinned near one).
pub open spec fn spec_sphere_outward(s: Sphere, p: Vec3) -> Vec3 {
    crate::material::spec_unit(
        Vec3 {
            x: (p.x - s.center.x) as i64,
            y: (p.y - s.center.y) as i64,
            z: (p.z - s.center.z) as i64,
        },
    )
}

/// The record a sphere hit at parameter `t` must carry.
pub open spec fn sphere_rec_ok(s: Sphere, r: Ray, rec: HitRecord) -> bool {
    let p = Vec3 {
        x: at_x(r, rec.t as int) as i64,
        y: at_y(r, rec.t as int) as i64,
        z: at_z(r, rec.t as int) as i64,
    };
    let pc = Vec3 {
        x: (p.x - s.center.x) as i64,
        y: (p.y - s.center.y) as i64,
        z: (p.z - s.center.z) as i64,
    };
    let outward = spec_sphere_outward(s, p);
    &&& rec.p == p
    &&& rec.material == s.material
    &&& rec.front_face == (dot3(r.direction, outward) < 0)
    &&& rec.normal == spec_oriented_normal(r, outward)
    &&& dot3(r.direction, rec.normal) <= 0
    &&& dot3(r.direction, outward) != 0 ==> dot3(r.direction, rec.normal) < 0
    &&& dot3(pc, pc) >= SCALE as int * SCALE as int ==> (SCALE - 4) * (SCALE - 4) <= dot3(
        rec.normal,
        rec.normal,
    ) <= (SCALE + 5) * (SCALE + 5)
    &&& s.center.x - s.radius - EPS_FX - 1 <= rec.p.x <= s.center.x + s.radius + EPS_FX + 1
    &&& s.center.y - s.radius - EPS_FX - 1 <= rec.p.y <= s.center.y + s.radius + EPS_FX + 1
    &&& s.center.z - s.radius - EPS_FX - 1 <= rec.p.z <= s.center.z + s.radius + EPS_FX + 1
}

/// All intermediate products of the quadratic fit their machine types.
proof fn lemma_sphere_ranges(s: Sphere, r: Ray)
    requires
        sphere_wf(s),
        ray_wf(r),
    ensures
        0 <= dot3(r.direction, r.direction) < 0x400000000000000,
        -0x800000000000000 < sphere_half_b(s, r) < 0x800000000000000,
        sphere_disc(s, r) < 0x1000000000000000000000000000000,
        -0x1000000000000000000000000000000 < sphere_disc(s, r),
{
    let ocx = r.origin.x - s.center.x;
    let ocy = r.origin.y - s.center.y;
    let ocz = r.origin.z - s.center.z;
    let dx = r.direction.x as int;
    let dy = r.direction.y as int;
    let dz = r.direction.z as int;
    assert(0 <= dx * dx + dy * dy + dz * dz < 0x400000000000000) by (nonlinear_arith)
        requires
            -0x10000000 <= dx <= 0x10000000,
            -0x10000000 <= dy <= 0x10000000,
            -0x10000000 <= dz <= 0x10000000,
    ;
    assert(-0x800000000000000 < ocx * dx + ocy * dy + ocz * dz < 0x800000000000000)
        by (nonlinear_arith)
        requires
            -0x20000000 <= ocx <= 0x20000000,
            -0x20000000 <= ocy <= 0x20000000,
            -0x20000000 <= ocz <= 0x20000000,
            -0x10000000 <= dx <= 0x10000000,
            -0x10000000 <= dy <= 0x10000000,
            -0x10000000 <= dz <= 0x10000000,
    ;
    let hb = ocx * dx + ocy * dy + ocz * dz;
    let aa = dx * dx + dy * dy + dz * dz;
    let c0 = ocx * ocx + ocy * ocy + ocz * ocz - s.radius * s.radius;
    assert(0 <= ocx * ocx <= 0x400000000000000) by (nonlinear_arith)
        requires
            -0x20000000 <= ocx <= 0x20000000,
    ;
    assert(0 <= ocy * ocy <= 0x400000000000000) by (nonlinear_arith)
        requires
            -0x20000000 <= ocy <= 0x20000000,
    ;
    assert(0 <= ocz * ocz <= 0x400000000000000) by (nonlinear_arith)
        requires
            -0x20000000 <= ocz <= 0x20000000,
    ;
    assert(0 <= s.radius * s.radius <= 0x10000000000000) by (nonlinear_arith)
        requires
            0 < s.radius <= 0x4000000,
    ;
    assert(-0x1000000000000000 < c0 < 0x1000000000000000);
    assert(0 <= hb * hb < 0x400000000000000000000000000000) by (nonlinear_arith)
        requires
            -0x800000000000000 < hb < 0x800000000000000,
    ;
    assert(-0x400000000000000000000000000000 < aa * c0 < 0x400000000000000000000000000000)
        by (nonlinear_arith)
        requires
            0 <= aa < 0x400000000000000,
            -0x1000000000000000 < c0 < 0x1000000000000000,
    ;
}

impl Sphere {
    pub fn new(cen: Vec3, rad: i64, mat: Material) -> (s: Sphere)
        requires
            in_range(cen, GEOM_MAX as int),
            EPS_FX < rad <= GEOM_MAX,
            crate::material::material_wf(mat),
        ensures
            s == (Sphere { center: cen, radius: rad, material: mat }),
            sphere_wf(s),
    {
        Sphere { center: cen, radius: rad, material: mat }
    }

    pub fn get_aabb(&self) -> (b: AABB)
        requires
            sphere_wf(*self),
        ensures
            b == spec_sphere_aabb(*self),
            box_wf(b),
    {
        AABB {
            min: Vec3 {
                x: self.center.x - self.radius - EPS_FX,
                y: self.center.y - self.radius - EPS_FX,
                z: self.center.z - self.radius - EPS_FX,
            },
            max: Vec3 {
                x: self.center.x + self.radius + EPS_FX,
                y: self.center.y + self.radius + EPS_FX,
                z: self.center.z + self.radius + EPS_FX,
            },
        }
    }

    /// Ray-sphere intersection.  Returns exactly the hit that
    /// `spec_sphere_hit_t` prescribes, with the record fields derived from
    /// the chosen parameter.
    pub fn hit(&self, ray: &Ray, t_min: i64, t_max: i64) -> (res: Option<HitRecord>)
        requires
            sphere_wf(*self),
            ray_wf(*ray),
        ensures
            match res {
                Some(rec) => {
                    &&& spec_sphere_hit_t(*self, *ray, t_min as int, t_max as int) == Some(
                        rec.t as int,
                    )
                    &&& sphere_rec_ok(*self, *ray, rec)
                    &&& t_min < rec.t < t_max
                },
                None => spec_sphere_hit_t(*self, *ray, t_min as int, t_max as int) is None,
            },
    {
        proof {
            lemma_sphere_ranges(*self, *ray);
            crate::math::lemma_i128_products();
        }
        let ocx = (ray.origin().x as i128) - (self.center.x as i128);
        let ocy = (ray.origin().y as i128) - (self.center.y as i128);
        let ocz = (ray.origin().z as i128) - (self.center.z as i128);
        let dx = ray.direction().x as i128;
        let dy = ray.direction().y as i128;
        let dz = ray.direction().z as i128;
        let aa = dx * dx + dy * dy + dz * dz;
        let hb = ocx * dx + ocy * dy + ocz * dz;
        let c0 = ocx * ocx + ocy * ocy + ocz * ocz - (self.radius as i128) * (self.radius as i128);
        let disc = hb * hb - aa * c0;
        if aa <= 0 || disc <= 0 {
            return None;
        }
        let sq = isqrt_u128(disc as u128) as i128;
        proof {
            crate::math::lemma_isqrt_bounds(disc as int);
            assert(spec_isqrt(disc as int) < 0x1000000000000000) by (nonlinear_arith)
                requires
                    spec_isqrt(disc as int) >= 0,
                    spec_isqrt(disc as int) * spec_isqrt(disc as int) <= disc as int,
                    (disc as int) < 0x1000000000000000000000000000000,
            ;
        }
        let n1 = -hb - sq;
        let n2 = -hb + sq;
        let t1 = div_trunc(n1 * (SCALE as i128), aa);
        let t2 = div_trunc(n2 * (SCALE as i128), aa);
        if (t_min as i128) < t1 && t1 < (t_max as i128) && self.guard(ray, t1 as i64) {
            Some(self.make_rec(ray, t1 as i64))
        } else if (t_min as i128) < t2 && t2 < (t_max as i128) && self.guard(ray, t2 as i64) {
            Some(self.make_rec(ray, t2 as i64))
        } else {
            None
        }
    }

    /// The containment guard: the exact point at parameter `t` lies in the
    /// sphere's bounding box (a numeric failure of this test is a miss).
    fn guard(&self, ray: &Ray, t: i64) -> (res: bool)
        requires
            sphere_wf(*self),
            ray_wf(*ray),
        ensures
            res == pt_in_box(*ray, t as int, spec_sphere_aabb(*self)),
    {
        let bb = self.get_aabb();
        crate::aabb::guard_box(&bb, ray, t)
    }

    /// Assemble the hit record for an accepted parameter.
    fn make_rec(&self, ray: &Ray, t: i64) -> (rec: HitRecord)
        requires
            sphere_wf(*self),
            ray_wf(*ray),
            pt_in_box(*ray, t as int, spec_sphere_aabb(*self)),
        ensures
            rec.t == t,
            sphere_rec_ok(*self, *ray, rec),
    {
        let bb = self.get_aabb();
        let p = crate::aabb::at_in_box(ray, t, &bb);
        let pc = Vec3 { x: p.x - self.center.x, y: p.y - self.center.y, z: p.z - self.center.z };
        let d = pc.length_squared();
        let outward = if d > 0 {
            let u = crate::material::unit_of(pc);
            proof {
                if dot3(pc, pc) >= SCALE as int * SCALE as int {
                    crate::vec3::lemma_unit_length(pc);
                    crate::math::lemma_isqrt_bounds(dot3(pc, pc));
                    let len = spec_isqrt(dot3(pc, pc));
                    assert(len >= 1) by (nonlinear_arith)
                        requires
                            dot3(pc, pc) >= 1,
                            dot3(pc, pc) < (len + 1) * (len + 1),
                            len >= 0,
                    ;
                    assert(pc.x * pc.x >= 0 && pc.y * pc.y >= 0 && pc.z * pc.z >= 0)
                        by (nonlinear_arith);
                    crate::material::lemma_unit_comp_bound(pc.x as int, len);
                    crate::material::lemma_unit_comp_bound(pc.y as int, len);
                    crate::material::lemma_unit_comp_bound(pc.z as int, len);
                }
            }
            u
        } else {
            Vec3 { x: 0, y: 0, z: 0 }
        };
        let (front_face, normal) = set_face_normal(ray, outward);
        proof {
            crate::hit::lemma_oriented_preserves_dot(*ray, outward);
        }
        HitRecord { p, normal, t, material: self.material, front_face }
    }
}

} // verus!

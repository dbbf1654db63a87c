//! Hit records and face-orientation of surface normals.

use vstd::prelude::*;
use crate::math::RAY_MAX;
use crate::vec3::{Vec3, dot3, in_range};
use crate::ray::Ray;
use crate::material::Material;

verus! {

#[derive(Clone, Copy, PartialEq, Eq, Structural, Debug)]
pub struct HitRecord {
    pub p: Vec3,
    pub normal: Vec3,
    pub t: i64,
    pub material: Material,
    pub front_face: bool,
}

impl HitRecord {
    pub fn get_p(&self) -> (v: Vec3)
        ensures
            v == self.p,
    {
        self.p
    }

    pub fn get_t(&self) -> (t: i64)
        ensures
            t == self.t,
    {
        self.t
    }

    pub fn get_normal(&self) -> (v: Vec3)
        ensures
            v == self.normal,
    {
        self.normal
    }

    pub fn get_front_face(&self) -> (f: bool)
        ensures
            f == self.front_face,
    {
        self.front_face
    }

    pub fn set_rec(&mut self, r: &HitRecord)
        ensures
            *final(self) == *r,
    {
        self.p = r.p;
        self.t = r.t;
        self.normal = r.normal;
        self.front_face = r.front_face;
        self.material = r.material;
    }
}

/// The oriented normal: the outward normal itself on a front-face hit, its
/// negation otherwise.
pub open spec fn spec_oriented_normal(r: Ray, outward: Vec3) -> Vec3 {
    if dot3(r.direction, outward) < 0 {
        outward
    } else {
        Vec3 { x: (-outward.x) as i64, y: (-outward.y) as i64, z: (-outward.z) as i64 }
    }
}

/// Orient an outward normal against the incoming ray.  The returned normal
/// never points along the ray: its dot product with the ray direction is
/// at most zero, and negative whenever the ray is not tangential.
pub fn set_face_normal(ray: &Ray, outward_normal: Vec3) -> (r: (bool, Vec3))
    requires
        crate::ray::ray_wf(*ray),
        in_range(outward_normal, RAY_MAX as int),
    ensures
        r.0 == (dot3(ray.direction, outward_normal) < 0),
        r.1 == spec_oriented_normal(*ray, outward_normal),
        dot3(ray.direction, r.1) <= 0,
        dot3(ray.direction, outward_normal) != 0 ==> dot3(ray.direction, r.1) < 0,
{
    let d = ray.direction();
    let front_face = d.dot(&outward_normal) < 0;
    let normal = if front_face {
        outward_normal
    } else {
        outward_normal.neg()
    };
    proof {
        if !front_face {
            assert(dot3(ray.direction, normal) == -dot3(ray.direction, outward_normal))
                by (nonlinear_arith)
                requires
                    normal.x == -outward_normal.x,
                    normal.y == -outward_normal.y,
                    normal.z == -outward_normal.z,
            ;
        }
    }
    (front_face, normal)
}

/// Orienting a normal preserves its squared length.
pub proof fn lemma_oriented_preserves_dot(r: Ray, n: Vec3)
    requires
        in_range(n, 0x10000000),
    ensures
        dot3(spec_oriented_normal(r, n), spec_oriented_normal(r, n)) == dot3(n, n),
{
    let m = spec_oriented_normal(r, n);
    if dot3(r.direction, n) < 0 {
    } else {
        assert(dot3(m, m) == dot3(n, n)) by (nonlinear_arith)
            requires
                m.x == -n.x,
                m.y == -n.y,
                m.z == -n.z,
                dot3(m, m) == m.x * m.x + m.y * m.y + m.z * m.z,
                dot3(n, n) == n.x * n.x + n.y * n.y + n.z * n.z,
        ;
    }
}

} // verus!

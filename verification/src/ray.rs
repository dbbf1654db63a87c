//! Rays: an origin and an (unnormalized) direction in fixed-point space.

use vstd::prelude::*;
use crate::math::{sdiv, div_trunc, SCALE, RAY_MAX};
use crate::vec3::{Vec3, in_range};

verus! {

#[derive(Clone, Copy, PartialEq, Eq, Structural, Debug)]
pub struct Ray {
    pub origin: Vec3,
    pub direction: Vec3,
}

/// Both endpoints of the ray description stay within the working range.
pub open spec fn ray_wf(r: Ray) -> bool {
    &&& in_range(r.origin, RAY_MAX as int)
    &&& in_range(r.direction, RAY_MAX as int)
}

/// The x component of `origin + direction * t / SCALE`, truncated.
pub open spec fn at_x(r: Ray, t: int) -> int {
    r.origin.x + sdiv(r.direction.x * t, SCALE as int)
}

pub open spec fn at_y(r: Ray, t: int) -> int {
    r.origin.y + sdiv(r.direction.y * t, SCALE as int)
}

pub open spec fn at_z(r: Ray, t: int) -> int {
    r.origin.z + sdiv(r.direction.z * t, SCALE as int)
}

impl Ray {
    pub fn new(orig: Vec3, dir: Vec3) -> (r: Ray)
        ensures
            r.origin == orig,
            r.direction == dir,
    {
        Ray { origin: orig, direction: dir }
    }

    pub fn origin(&self) -> (v: Vec3)
        ensures
            v == self.origin,
    {
        self.origin
    }

    pub fn direction(&self) -> (v: Vec3)
        ensures
            v == self.direction,
    {
        self.direction
    }

    /// The point reached after parameter `t`, componentwise truncated.
    pub fn at(&self, t: i64) -> (p: Vec3)
        requires
            ray_wf(*self),
            -0x800000000000 <= t <= 0x800000000000,  // |t| <= 2^47
        ensures
            p.x == at_x(*self, t as int),
            p.y == at_y(*self, t as int),
            p.z == at_z(*self, t as int),
            in_range(p, 0x4000000000000000),
    {
        proof {
            lemma_at_bounds(*self, t as int);
        }
        let sx = div_trunc((self.direction.x as i128) * (t as i128), SCALE as i128);
        let sy = div_trunc((self.direction.y as i128) * (t as i128), SCALE as i128);
        let sz = div_trunc((self.direction.z as i128) * (t as i128), SCALE as i128);
        Vec3 {
            x: self.origin.x + (sx as i64),
            y: self.origin.y + (sy as i64),
            z: self.origin.z + (sz as i64),
        }
    }
}

proof fn lemma_at_bounds(r: Ray, t: int)
    requires
        ray_wf(r),
        -0x800000000000 <= t <= 0x800000000000,
    ensures
        -0x20000000000000000000 <= r.direction.x * t <= 0x20000000000000000000,
        -0x20000000000000000000 <= r.direction.y * t <= 0x20000000000000000000,
        -0x20000000000000000000 <= r.direction.z * t <= 0x20000000000000000000,
        -0x2000000000000000 <= sdiv(r.direction.x * t, SCALE as int) <= 0x2000000000000000,
        -0x2000000000000000 <= sdiv(r.direction.y * t, SCALE as int) <= 0x2000000000000000,
        -0x2000000000000000 <= sdiv(r.direction.z * t, SCALE as int) <= 0x2000000000000000,
{
    assert(-0x20000000000000000000 <= r.direction.x * t <= 0x20000000000000000000)
        by (nonlinear_arith)
        requires
            -0x40000000 <= r.direction.x <= 0x40000000,
            -0x800000000000 <= t <= 0x800000000000,
    ;
    assert(-0x20000000000000000000 <= r.direction.y * t <= 0x20000000000000000000)
        by (nonlinear_arith)
        requires
            -0x40000000 <= r.direction.y <= 0x40000000,
            -0x800000000000 <= t <= 0x800000000000,
    ;
    assert(-0x20000000000000000000 <= r.direction.z * t <= 0x20000000000000000000)
        by (nonlinear_arith)
        requires
            -0x40000000 <= r.direction.z <= 0x40000000,
            -0x800000000000 <= t <= 0x800000000000,
    ;
    crate::math::lemma_sdiv_le(r.direction.x * t, SCALE as int, 0x2000000000000000);
    crate::math::lemma_sdiv_le(r.direction.y * t, SCALE as int, 0x2000000000000000);
    crate::math::lemma_sdiv_le(r.direction.z * t, SCALE as int, 0x2000000000000000);
}

} // verus!

//! The camera: maps viewport fractions and a lens sample to a ray.
//!
//! The vertical field of view enters as the precomputed fixed-point value
//! of `tan(vfov / 2)`; trigonometry stays outside the library.

use vstd::prelude::*;
use crate::math::{sdiv, SCALE, GEOM_MAX, mul_fx};
use crate::vec3::{Vec3, dot3, in_range, cross_x, cross_y, cross_z};
use crate::ray::{Ray, ray_wf};
use crate::rng::random_in_unit_disk;
use crate::material::spec_unit;

verus! {

pub struct Camera {
    pub origin: Vec3,
    pub horizontal: Vec3,
    pub vertical: Vec3,
    pub lower_left_corner: Vec3,
    pub w: Vec3,
    pub u: Vec3,
    pub v: Vec3,
    pub lens_radius: i64,
}

/// Field bounds that keep every ray the camera makes well-formed.
pub open spec fn camera_wf(c: Camera) -> bool {
    &&& in_range(c.origin, GEOM_MAX as int)
    &&& in_range(c.horizontal, 0x8000000)
    &&& in_range(c.vertical, 0x9000000)
    &&& in_range(c.lower_left_corner, 0xc000000)
    &&& in_range(c.u, 131073)
    &&& in_range(c.v, 1048576)
    &&& in_range(c.w, 131073)
    &&& 0 <= c.lens_radius <= SCALE
}

/// The derived camera frame, componentwise in fixed point: `w` looks from
/// the target to the eye, `u` and `v` span the viewport, the horizontal
/// and vertical extents carry the focus distance and the viewport size,
/// and the lower-left corner anchors the image plane.
pub open spec fn spec_frame_ok(
    c: Camera,
    look_from: Vec3,
    look_at: Vec3,
    v_up: Vec3,
    half_height: i64,
    aspect_ratio: i64,
    aperture: i64,
    focus_dist: i64,
) -> bool {
    let dirv = Vec3 {
        x: (look_from.x - look_at.x) as i64,
        y: (look_from.y - look_at.y) as i64,
        z: (look_from.z - look_at.z) as i64,
    };
    let w = spec_unit(dirv);
    let cu = Vec3 {
        x: sdiv(cross_x(v_up, w), SCALE as int) as i64,
        y: sdiv(cross_y(v_up, w), SCALE as int) as i64,
        z: sdiv(cross_z(v_up, w), SCALE as int) as i64,
    };
    let u = if cu.x == 0 && cu.y == 0 && cu.z == 0 {
        Vec3 { x: SCALE, y: 0, z: 0 }
    } else {
        spec_unit(cu)
    };
    let vh = 2 * half_height;
    let vw = sdiv(aspect_ratio * vh, SCALE as int);
    let fw = sdiv(focus_dist * vw, SCALE as int);
    let fh = sdiv(focus_dist * vh, SCALE as int);
    &&& c.origin == look_from
    &&& c.w == w
    &&& c.u == u
    &&& c.v.x == sdiv(cross_x(w, u), SCALE as int)
    &&& c.v.y == sdiv(cross_y(w, u), SCALE as int)
    &&& c.v.z == sdiv(cross_z(w, u), SCALE as int)
    &&& c.horizontal.x == sdiv(u.x * fw, SCALE as int)
    &&& c.horizontal.y == sdiv(u.y * fw, SCALE as int)
    &&& c.horizontal.z == sdiv(u.z * fw, SCALE as int)
    &&& c.vertical.x == sdiv(c.v.x * fh, SCALE as int)
    &&& c.vertical.y == sdiv(c.v.y * fh, SCALE as int)
    &&& c.vertical.z == sdiv(c.v.z * fh, SCALE as int)
    &&& c.lower_left_corner.x == look_from.x - sdiv(c.horizontal.x as int, 2) - sdiv(
        c.vertical.x as int,
        2,
    ) - sdiv(w.x * focus_dist, SCALE as int)
    &&& c.lower_left_corner.y == look_from.y - sdiv(c.horizontal.y as int, 2) - sdiv(
        c.vertical.y as int,
        2,
    ) - sdiv(w.y * focus_dist, SCALE as int)
    &&& c.lower_left_corner.z == look_from.z - sdiv(c.horizontal.z as int, 2) - sdiv(
        c.vertical.z as int,
        2,
    ) - sdiv(w.z * focus_dist, SCALE as int)
    &&& c.lens_radius == aperture / 2
}

impl Camera {
    /// Derive the camera frame.  `half_height` is `tan(vfov / 2)` in fixed
    /// point; a degenerate frame (view direction parallel to up, or a zero
    /// view vector is excluded by the precondition) falls back to the x axis.
    pub fn new(
        look_from: Vec3,
        look_at: Vec3,
        v_up: Vec3,
        half_height: i64,
        aspect_ratio: i64,
        aperture: i64,
        focus_dist: i64,
    ) -> (c: Camera)
        requires
            in_range(look_from, GEOM_MAX as int),
            in_range(look_at, GEOM_MAX as int),
            in_range(v_up, GEOM_MAX as int),
            look_from != look_at,
            0 < half_height <= 4 * SCALE,
            0 < aspect_ratio <= 4 * SCALE,
            0 <= aperture <= 2 * SCALE,
            0 < focus_dist <= 16 * SCALE,
        ensures
            camera_wf(c),
            spec_frame_ok(c, look_from, look_at, v_up, half_height, aspect_ratio, aperture, focus_dist),
    {
        proof {
            if dot3(
                Vec3 {
                    x: (look_from.x - look_at.x) as i64,
                    y: (look_from.y - look_at.y) as i64,
                    z: (look_from.z - look_at.z) as i64,
                },
                Vec3 {
                    x: (look_from.x - look_at.x) as i64,
                    y: (look_from.y - look_at.y) as i64,
                    z: (look_from.z - look_at.z) as i64,
                },
            ) <= 0 {
                lemma_zero_dot(
                    Vec3 {
                        x: (look_from.x - look_at.x) as i64,
                        y: (look_from.y - look_at.y) as i64,
                        z: (look_from.z - look_at.z) as i64,
                    },
                );
            }
        }
        let dirv = look_from.sub(&look_at);
        let w = unit_bounded(dirv);
        let cu = v_up.cross(&w);
        proof {
            crate::math::lemma_mul_bound(v_up.y as int, w.z as int, 0x4000000, 131073);
            crate::math::lemma_mul_bound(v_up.z as int, w.y as int, 0x4000000, 131073);
            crate::math::lemma_mul_bound(v_up.z as int, w.x as int, 0x4000000, 131073);
            crate::math::lemma_mul_bound(v_up.x as int, w.z as int, 0x4000000, 131073);
            crate::math::lemma_mul_bound(v_up.x as int, w.y as int, 0x4000000, 131073);
            crate::math::lemma_mul_bound(v_up.y as int, w.x as int, 0x4000000, 131073);
            crate::math::lemma_sdiv_le(crate::vec3::cross_x(v_up, w), SCALE as int, 0x10000800);
            crate::math::lemma_sdiv_le(crate::vec3::cross_y(v_up, w), SCALE as int, 0x10000800);
            crate::math::lemma_sdiv_le(crate::vec3::cross_z(v_up, w), SCALE as int, 0x10000800);
        }
        let u = if cu.x == 0 && cu.y == 0 && cu.z == 0 {
            Vec3 { x: SCALE, y: 0, z: 0 }
        } else {
            proof {
                if dot3(cu, cu) <= 0 {
                    lemma_zero_dot(cu);
                }
            }
            unit_bounded(cu)
        };
        let v = w.cross(&u);
        proof {
            crate::vec3::lemma_dot_bound(w, u, 131073);
            crate::math::lemma_sdiv_le(crate::vec3::cross_x(w, u), SCALE as int, 1048576);
            crate::math::lemma_sdiv_le(crate::vec3::cross_y(w, u), SCALE as int, 1048576);
            crate::math::lemma_sdiv_le(crate::vec3::cross_z(w, u), SCALE as int, 1048576);
        }
        let viewport_height = 2 * half_height;
        proof {
            crate::math::lemma_mul_bound(aspect_ratio as int, viewport_height as int, 262144, 524288);
            crate::math::lemma_sdiv_le(
                aspect_ratio as int * viewport_height as int,
                SCALE as int,
                2097152,
            );
        }
        let viewport_width = mul_fx(aspect_ratio, viewport_height);
        proof {
            crate::math::lemma_mul_bound(focus_dist as int, viewport_width as int, 1048576, 2097152);
            crate::math::lemma_sdiv_le(
                focus_dist as int * viewport_width as int,
                SCALE as int,
                33554432,
            );
            crate::math::lemma_mul_bound(focus_dist as int, viewport_height as int, 1048576, 524288);
            crate::math::lemma_sdiv_le(
                focus_dist as int * viewport_height as int,
                SCALE as int,
                8388608,
            );
        }
        let fw = mul_fx(focus_dist, viewport_width);
        let fh = mul_fx(focus_dist, viewport_height);
        let horizontal = scale_dir(u, fw, 131073, 0x4010000);
        let vertical = scale_dir(v, fh, 1048576, 0x8010000);
        let wfocus = scale_dir(w, focus_dist, 131073, 0x210000);
        let lower_left_corner = Vec3 {
            x: look_from.x - half_i64(horizontal.x) - half_i64(vertical.x) - wfocus.x,
            y: look_from.y - half_i64(horizontal.y) - half_i64(vertical.y) - wfocus.y,
            z: look_from.z - half_i64(horizontal.z) - half_i64(vertical.z) - wfocus.z,
        };
        Camera {
            origin: look_from,
            horizontal,
            vertical,
            lower_left_corner,
            w,
            u,
            v,
            lens_radius: aperture / 2,
        }
    }

    /// The ray through viewport fractions `(s, t)`, jittered by a lens
    /// sample scaled by the lens radius.
    pub fn get_ray(&self, s: i64, t: i64) -> (r: Ray)
        requires
            camera_wf(*self),
            0 <= s <= 2 * SCALE,
            0 <= t <= 2 * SCALE,
        ensures
            ray_wf(r),
            self.lens_radius == 0 ==> r.origin == self.origin && r == spec_center_ray(*self, s as int, t as int),
            exists|rd: Vec3|
                #![trigger spec_lens_ray(*self, s as int, t as int, rd)]
                rd.z == 0 && in_range(rd, SCALE as int) && dot3(rd, rd) < SCALE as int * SCALE
                    as int && r == spec_lens_ray(*self, s as int, t as int, rd),
    {
        let rd = random_in_unit_disk();
        proof {
            crate::math::lemma_mul_bound(rd.x as int, self.lens_radius as int, 65536, 65536);
            crate::math::lemma_mul_bound(rd.y as int, self.lens_radius as int, 65536, 65536);
            crate::math::lemma_sdiv_le(rd.x as int * self.lens_radius as int, SCALE as int, 65536);
            crate::math::lemma_sdiv_le(rd.y as int * self.lens_radius as int, SCALE as int, 65536);
        }
        let rdx = mul_fx(rd.x, self.lens_radius);
        let rdy = mul_fx(rd.y, self.lens_radius);
        proof {
            crate::math::lemma_mul_bound(self.u.x as int, rdx as int, 131073, 65536);
            crate::math::lemma_mul_bound(self.u.y as int, rdx as int, 131073, 65536);
            crate::math::lemma_mul_bound(self.u.z as int, rdx as int, 131073, 65536);
            crate::math::lemma_mul_bound(self.v.x as int, rdy as int, 1048576, 65536);
            crate::math::lemma_mul_bound(self.v.y as int, rdy as int, 1048576, 65536);
            crate::math::lemma_mul_bound(self.v.z as int, rdy as int, 1048576, 65536);
            crate::math::lemma_sdiv_le(self.u.x as int * rdx as int, SCALE as int, 262146);
            crate::math::lemma_sdiv_le(self.u.y as int * rdx as int, SCALE as int, 262146);
            crate::math::lemma_sdiv_le(self.u.z as int * rdx as int, SCALE as int, 262146);
            crate::math::lemma_sdiv_le(self.v.x as int * rdy as int, SCALE as int, 1048576);
            crate::math::lemma_sdiv_le(self.v.y as int * rdy as int, SCALE as int, 1048576);
            crate::math::lemma_sdiv_le(self.v.z as int * rdy as int, SCALE as int, 1048576);
        }
        let ox = mul_fx(self.u.x, rdx) + mul_fx(self.v.x, rdy);
        let oy = mul_fx(self.u.y, rdx) + mul_fx(self.v.y, rdy);
        let oz = mul_fx(self.u.z, rdx) + mul_fx(self.v.z, rdy);
        proof {
            crate::math::lemma_mul_bound(self.horizontal.x as int, s as int, 0x8000000, 131072);
            crate::math::lemma_mul_bound(self.horizontal.y as int, s as int, 0x8000000, 131072);
            crate::math::lemma_mul_bound(self.horizontal.z as int, s as int, 0x8000000, 131072);
            crate::math::lemma_mul_bound(self.vertical.x as int, t as int, 0x9000000, 131072);
            crate::math::lemma_mul_bound(self.vertical.y as int, t as int, 0x9000000, 131072);
            crate::math::lemma_mul_bound(self.vertical.z as int, t as int, 0x9000000, 131072);
            crate::math::lemma_sdiv_le(self.horizontal.x as int * s as int, SCALE as int, 0x10000000);
            crate::math::lemma_sdiv_le(self.horizontal.y as int * s as int, SCALE as int, 0x10000000);
            crate::math::lemma_sdiv_le(self.horizontal.z as int * s as int, SCALE as int, 0x10000000);
            crate::math::lemma_sdiv_le(self.vertical.x as int * t as int, SCALE as int, 0x12000000);
            crate::math::lemma_sdiv_le(self.vertical.y as int * t as int, SCALE as int, 0x12000000);
            crate::math::lemma_sdiv_le(self.vertical.z as int * t as int, SCALE as int, 0x12000000);
        }
        let hx = mul_fx(self.horizontal.x, s);
        let hy = mul_fx(self.horizontal.y, s);
        let hz = mul_fx(self.horizontal.z, s);
        let vx = mul_fx(self.vertical.x, t);
        let vy = mul_fx(self.vertical.y, t);
        let vz = mul_fx(self.vertical.z, t);
        proof {
            if self.lens_radius == 0 {
                assert(forall|a: int| #[trigger] (a * 0) == 0) by (nonlinear_arith);
                assert(sdiv(0, SCALE as int) == 0);
            }
        }
        let dirx = clamp_dir(self.lower_left_corner.x + hx + vx - self.origin.x - ox);
        let diry = clamp_dir(self.lower_left_corner.y + hy + vy - self.origin.y - oy);
        let dirz = clamp_dir(self.lower_left_corner.z + hz + vz - self.origin.z - oz);
        let out = Ray::new(
            Vec3 { x: self.origin.x + ox, y: self.origin.y + oy, z: self.origin.z + oz },
            Vec3 { x: dirx, y: diry, z: dirz },
        );
        proof {
            assert(rd.z == 0 && in_range(rd, SCALE as int) && dot3(rd, rd) < SCALE as int
                * SCALE as int && out == spec_lens_ray(*self, s as int, t as int, rd));
        }
        out
    }
}

/// The offset a lens sample displaces the ray origin by, in the camera's
/// viewport frame.
pub open spec fn spec_lens_off_x(c: Camera, rd: Vec3) -> int {
    sdiv(c.u.x * sdiv(rd.x * c.lens_radius, SCALE as int), SCALE as int) + sdiv(
        c.v.x * sdiv(rd.y * c.lens_radius, SCALE as int),
        SCALE as int,
    )
}

pub open spec fn spec_lens_off_y(c: Camera, rd: Vec3) -> int {
    sdiv(c.u.y * sdiv(rd.x * c.lens_radius, SCALE as int), SCALE as int) + sdiv(
        c.v.y * sdiv(rd.y * c.lens_radius, SCALE as int),
        SCALE as int,
    )
}

pub open spec fn spec_lens_off_z(c: Camera, rd: Vec3) -> int {
    sdiv(c.u.z * sdiv(rd.x * c.lens_radius, SCALE as int), SCALE as int) + sdiv(
        c.v.z * sdiv(rd.y * c.lens_radius, SCALE as int),
        SCALE as int,
    )
}

/// The ray for viewport fractions `(s, t)` and the lens sample `rd`.
pub open spec fn spec_lens_ray(c: Camera, s: int, t: int, rd: Vec3) -> Ray {
    let offx = spec_lens_off_x(c, rd);
    let offy = spec_lens_off_y(c, rd);
    let offz = spec_lens_off_z(c, rd);
    Ray {
        origin: Vec3 {
            x: (c.origin.x + offx) as i64,
            y: (c.origin.y + offy) as i64,
            z: (c.origin.z + offz) as i64,
        },
        direction: Vec3 {
            x: clamp_spec(
                c.lower_left_corner.x + sdiv(c.horizontal.x * s, SCALE as int) + sdiv(
                    c.vertical.x * t,
                    SCALE as int,
                ) - c.origin.x - offx,
            ) as i64,
            y: clamp_spec(
                c.lower_left_corner.y + sdiv(c.horizontal.y * s, SCALE as int) + sdiv(
                    c.vertical.y * t,
                    SCALE as int,
                ) - c.origin.y - offy,
            ) as i64,
            z: clamp_spec(
                c.lower_left_corner.z + sdiv(c.horizontal.z * s, SCALE as int) + sdiv(
                    c.vertical.z * t,
                    SCALE as int,
                ) - c.origin.z - offz,
            ) as i64,
        },
    }
}

/// The deterministic ray for a closed lens.
pub open spec fn spec_center_ray(c: Camera, s: int, t: int) -> Ray {
    Ray {
        origin: c.origin,
        direction: Vec3 {
            x: clamp_spec(
                c.lower_left_corner.x + sdiv(c.horizontal.x * s, SCALE as int) + sdiv(
                    c.vertical.x * t,
                    SCALE as int,
                ) - c.origin.x,
            ) as i64,
            y: clamp_spec(
                c.lower_left_corner.y + sdiv(c.horizontal.y * s, SCALE as int) + sdiv(
                    c.vertical.y * t,
                    SCALE as int,
                ) - c.origin.y,
            ) as i64,
            z: clamp_spec(
                c.lower_left_corner.z + sdiv(c.horizontal.z * s, SCALE as int) + sdiv(
                    c.vertical.z * t,
                    SCALE as int,
                ) - c.origin.z,
            ) as i64,
        },
    }
}

pub open spec fn clamp_spec(x: int) -> int {
    if x < -0x10000000 {
        -0x10000000
    } else if x > 0x10000000 {
        0x10000000
    } else {
        x
    }
}

/// Keep a derived direction component inside the working range.
fn clamp_dir(x: i64) -> (r: i64)
    requires
        -0x4000000000000000 <= x <= 0x4000000000000000,
    ensures
        r == clamp_spec(x as int),
        -0x10000000 <= r <= 0x10000000,
{
    if x < -0x10000000 {
        -0x10000000
    } else if x > 0x10000000 {
        0x10000000
    } else {
        x
    }
}

/// Normalize a nonzero bounded vector.
fn unit_bounded(v: Vec3) -> (r: Vec3)
    requires
        in_range(v, 0x11000000),
        dot3(v, v) > 0,
    ensures
        in_range(r, 131073),
        r == spec_unit(v),
{
    let u = v.unit_vector();
    proof {
        crate::math::lemma_isqrt_bounds(dot3(v, v));
        let len = crate::math::spec_isqrt(dot3(v, v));
        assert(len >= 1) by (nonlinear_arith)
            requires
                dot3(v, v) >= 1,
                dot3(v, v) < (len + 1) * (len + 1),
                len >= 0,
        ;
        assert(v.x * v.x >= 0 && v.y * v.y >= 0 && v.z * v.z >= 0) by (nonlinear_arith);
        lemma_unit_bound(v.x as int, len);
        lemma_unit_bound(v.y as int, len);
        lemma_unit_bound(v.z as int, len);
    }
    u
}

proof fn lemma_unit_bound(x: int, len: int)
    requires
        len >= 1,
        x * x <= (len + 1) * (len + 1) - 1,
    ensures
        -131073 <= sdiv(x * SCALE, len) <= 131073,
{
    assert(-(len + 1) <= x <= len + 1) by (nonlinear_arith)
        requires
            x * x <= (len + 1) * (len + 1) - 1,
            len >= 1,
    ;
    assert(-(131073 * len) <= x * SCALE <= 131073 * len) by (nonlinear_arith)
        requires
            -(len + 1) <= x <= len + 1,
            len >= 1,
            SCALE == 65536,
    ;
    crate::math::lemma_sdiv_le(x * SCALE, len, 131073);
}

/// A zero vector dotted with itself is zero (for the contrapositive).
proof fn lemma_zero_dot(v: Vec3)
    requires
        dot3(v, v) <= 0,
    ensures
        v.x == 0 && v.y == 0 && v.z == 0,
{
    assert(v.x * v.x >= 0 && v.y * v.y >= 0 && v.z * v.z >= 0 && (v.x != 0 ==> v.x * v.x > 0) && (
    v.y != 0 ==> v.y * v.y > 0) && (v.z != 0 ==> v.z * v.z > 0)) by (nonlinear_arith);
}

/// Scale a bounded frame vector by a bounded fixed factor.
fn scale_dir(v: Vec3, f: i64, vb: i64, bound: i64) -> (r: Vec3)
    requires
        0 <= vb,
        in_range(v, vb as int),
        0 <= f,
        f as int * vb as int <= bound as int * SCALE as int,
        0 <= bound <= 0x10000000,
    ensures
        in_range(r, bound as int),
        r.x == sdiv(v.x * f, SCALE as int),
        r.y == sdiv(v.y * f, SCALE as int),
        r.z == sdiv(v.z * f, SCALE as int),
{
    proof {
        crate::math::lemma_mul_bound(v.x as int, f as int, vb as int, f as int);
        crate::math::lemma_mul_bound(v.y as int, f as int, vb as int, f as int);
        crate::math::lemma_mul_bound(v.z as int, f as int, vb as int, f as int);
        assert(vb as int * (f as int) == (f as int) * (vb as int)) by (nonlinear_arith);
        crate::math::lemma_sdiv_le(v.x as int * f as int, SCALE as int, bound as int);
        crate::math::lemma_sdiv_le(v.y as int * f as int, SCALE as int, bound as int);
        crate::math::lemma_sdiv_le(v.z as int * f as int, SCALE as int, bound as int);
    }
    Vec3 { x: mul_fx(v.x, f), y: mul_fx(v.y, f), z: mul_fx(v.z, f) }
}

/// Half of a value, truncated toward zero.
fn half_i64(a: i64) -> (r: i64)
    ensures
        r as int == sdiv(a as int, 2),
        -0x4000000000000000 <= r <= 0x4000000000000000,
{
    proof {
        crate::math::lemma_sdiv_le(a as int, 2, 0x4000000000000000);
    }
    crate::math::div_trunc(a as i128, 2) as i64
}

} // verus!

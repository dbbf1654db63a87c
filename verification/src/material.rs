//! Material kinds and their scattering laws.

use vstd::prelude::*;
use crate::math::{sdiv, spec_isqrt, SCALE, mul_fx, isqrt_u128};
use crate::vec3::{Vec3, dot3, in_range};
use crate::ray::Ray;
use crate::hit::HitRecord;
use crate::rng::{random_fx, random_unit_vec3};

verus! {

/// The closed set of surface materials: a diffuse colour, a fuzzy metal,
/// a refracting dielectric with an index of refraction, and a perfect mirror.
/// Colour channels and the scalar parameters are Q16.16 fixed-point values.
#[derive(Clone, Copy, PartialEq, Eq, Structural, Debug)]
pub enum Material {
    Lambertian(Vec3),
    Metal(Vec3, i64),
    Dielectric(i64),
    Mirror,
}

/// Validity of a material: colour channels in `[0, 1]`, fuzz in `[0, 1]`,
/// index of refraction positive and bounded.
pub open spec fn material_wf(m: Material) -> bool {
    match m {
        Material::Lambertian(albedo) => in_range(albedo, SCALE as int) && albedo.x >= 0 && albedo.y
            >= 0 && albedo.z >= 0,
        Material::Metal(albedo, fuzz) => in_range(albedo, SCALE as int) && albedo.x >= 0 && albedo.y
            >= 0 && albedo.z >= 0 && 0 <= fuzz <= SCALE,
        Material::Dielectric(ior) => 0 < ior <= 16 * SCALE,
        Material::Mirror => true,
    }
}

/// Pure white attenuation.
pub open spec fn spec_white() -> Vec3 {
    Vec3 { x: SCALE, y: SCALE, z: SCALE }
}

/// The fixed-point normalization mirror (zero for a zero vector).
pub open spec fn spec_unit(v: Vec3) -> Vec3 {
    let len = spec_isqrt(dot3(v, v));
    if len <= 0 {
        Vec3 { x: 0, y: 0, z: 0 }
    } else {
        Vec3 {
            x: sdiv(v.x * SCALE, len) as i64,
            y: sdiv(v.y * SCALE, len) as i64,
            z: sdiv(v.z * SCALE, len) as i64,
        }
    }
}

/// The fixed-point reflection mirror: `v - 2 (v . n) n`, with the dot
/// product rescaled by `SCALE^2`.
pub open spec fn spec_reflect(v: Vec3, n: Vec3) -> Vec3 {
    Vec3 {
        x: (v.x - sdiv(2 * dot3(v, n) * n.x, SCALE * SCALE)) as i64,
        y: (v.y - sdiv(2 * dot3(v, n) * n.y, SCALE * SCALE)) as i64,
        z: (v.z - sdiv(2 * dot3(v, n) * n.z, SCALE * SCALE)) as i64,
    }
}

/// The direction a mirror surface scatters to.
pub open spec fn spec_mirror_dir(r: Ray, rec: HitRecord) -> Vec3 {
    spec_reflect(spec_unit(r.direction), rec.normal)
}

/// Reflect `v` across the plane with normal `n`.
pub fn reflect(v: Vec3, n: Vec3) -> (r: Vec3)
    requires
        in_range(v, 0x40000),
        in_range(n, 0x40000),
    ensures
        r == spec_reflect(v, n),
        in_range(r, 0x8000000),
{
    proof {
        crate::vec3::lemma_dot_bound(v, n, 0x40000);
        crate::math::lemma_mul_bound(2 * dot3(v, n), n.x as int, 0x10000000000, 0x40000);
        crate::math::lemma_mul_bound(2 * dot3(v, n), n.y as int, 0x10000000000, 0x40000);
        crate::math::lemma_mul_bound(2 * dot3(v, n), n.z as int, 0x10000000000, 0x40000);
        crate::math::lemma_sdiv_le(2 * dot3(v, n) * n.x, SCALE as int * SCALE as int, 0x4000000);
        crate::math::lemma_sdiv_le(2 * dot3(v, n) * n.y, SCALE as int * SCALE as int, 0x4000000);
        crate::math::lemma_sdiv_le(2 * dot3(v, n) * n.z, SCALE as int * SCALE as int, 0x4000000);
    }
    let d = v.x * n.x + v.y * n.y + v.z * n.z;
    let dx = crate::math::div_trunc(2 * (d as i128) * (n.x as i128), (SCALE as i128) * (
    SCALE as i128));
    let dy = crate::math::div_trunc(2 * (d as i128) * (n.y as i128), (SCALE as i128) * (
    SCALE as i128));
    let dz = crate::math::div_trunc(2 * (d as i128) * (n.z as i128), (SCALE as i128) * (
    SCALE as i128));
    Vec3 { x: v.x - (dx as i64), y: v.y - (dy as i64), z: v.z - (dz as i64) }
}

/// The projective reflection over the raw components: `(n.n) v - 2 (v.n) n`.
/// Stated without any rescaling, so reflecting is exact.
pub open spec fn refl_x(v: Vec3, n: Vec3) -> int {
    dot3(n, n) * v.x - 2 * dot3(v, n) * n.x
}

pub open spec fn refl_y(v: Vec3, n: Vec3) -> int {
    dot3(n, n) * v.y - 2 * dot3(v, n) * n.y
}

pub open spec fn refl_z(v: Vec3, n: Vec3) -> int {
    dot3(n, n) * v.z - 2 * dot3(v, n) * n.z
}

/// The dot product of the reflected vector with the plane normal.
pub open spec fn refl_dot_n(v: Vec3, n: Vec3) -> int {
    refl_x(v, n) * n.x + refl_y(v, n) * n.y + refl_z(v, n) * n.z
}

/// Distribution over a three-term sum.
proof fn lemma_dist3(a: int, x: int, y: int, z: int)
    by (nonlinear_arith)
    ensures
        a * (x + y + z) == a * x + a * y + a * z,
{
}

/// One component of the reflected-vector dot product, expanded.
proof fn lemma_refl_comp(s2: int, d: int, vc: int, nc: int)
    by (nonlinear_arith)
    ensures
        (s2 * vc - 2 * d * nc) * nc == s2 * (vc * nc) - 2 * d * (nc * nc),
{
}

/// Reflecting reverses the normal component of a vector exactly.
pub proof fn lemma_reflect_flips_normal(v: Vec3, n: Vec3)
    ensures
        refl_dot_n(v, n) == -(dot3(n, n) * dot3(v, n)),
{
    let s2 = dot3(n, n);
    let d = dot3(v, n);
    lemma_refl_comp(s2, d, v.x as int, n.x as int);
    lemma_refl_comp(s2, d, v.y as int, n.y as int);
    lemma_refl_comp(s2, d, v.z as int, n.z as int);
    assert(refl_dot_n(v, n) == s2 * (v.x * n.x) + s2 * (v.y * n.y) + s2 * (v.z * n.z) - 2 * d * (
    n.x * n.x) - 2 * d * (n.y * n.y) - 2 * d * (n.z * n.z));
    lemma_dist3(s2, v.x * n.x, v.y * n.y, v.z * n.z);
    lemma_dist3(2 * d, n.x * n.x, n.y * n.y, n.z * n.z);
    assert(refl_dot_n(v, n) == s2 * d - (2 * d) * s2);
    assert(s2 * d - (2 * d) * s2 == -(s2 * d)) by (nonlinear_arith);
}

/// One component of reflecting a reflected vector, expanded.
proof fn lemma_refl_twice_comp(s2: int, d: int, vc: int, nc: int)
    by (nonlinear_arith)
    ensures
        s2 * (s2 * vc - 2 * d * nc) - 2 * (-(s2 * d)) * nc == s2 * s2 * vc,
{
}

/// Reflecting twice across the same plane returns the original direction,
/// scaled by the positive factor `(n . n)^2`: on the exact model, double
/// reflection is the identity up to normalization.
pub proof fn lemma_reflect_involution(v: Vec3, n: Vec3, w: Vec3)
    requires
        w.x == refl_x(v, n),
        w.y == refl_y(v, n),
        w.z == refl_z(v, n),
    ensures
        refl_x(w, n) == dot3(n, n) * dot3(n, n) * v.x,
        refl_y(w, n) == dot3(n, n) * dot3(n, n) * v.y,
        refl_z(w, n) == dot3(n, n) * dot3(n, n) * v.z,
{
    let s2 = dot3(n, n);
    let d = dot3(v, n);
    lemma_reflect_flips_normal(v, n);
    assert(dot3(w, n) == refl_dot_n(v, n));
    lemma_refl_twice_comp(s2, d, v.x as int, n.x as int);
    lemma_refl_twice_comp(s2, d, v.y as int, n.y as int);
    lemma_refl_twice_comp(s2, d, v.z as int, n.z as int);
}

/// Normalize a nonzero vector with bounded components.
pub(crate) fn unit_of(v: Vec3) -> (r: Vec3)
    requires
        in_range(v, 0x10000000),
        dot3(v, v) > 0,
    ensures
        r == spec_unit(v),
        in_range(r, 2 * SCALE as int + 1),
{
    let u = v.unit_vector();
    proof {
        crate::math::lemma_isqrt_bounds(dot3(v, v));
        let len = spec_isqrt(dot3(v, v));
        assert(len >= 1) by (nonlinear_arith)
            requires
                dot3(v, v) >= 1,
                dot3(v, v) < (len + 1) * (len + 1),
                len >= 0,
        ;
        assert(v.x * v.x >= 0 && v.y * v.y >= 0 && v.z * v.z >= 0) by (nonlinear_arith);
        lemma_unit_comp_bound(v.x as int, len);
        lemma_unit_comp_bound(v.y as int, len);
        lemma_unit_comp_bound(v.z as int, len);
    }
    u
}

/// Each normalized component is at most `2 * SCALE` in magnitude.
pub(crate) proof fn lemma_unit_comp_bound(x: int, len: int)
    requires
        len >= 1,
        x * x <= (len + 1) * (len + 1) - 1,
    ensures
        -(2 * SCALE as int + 1) <= sdiv(x * SCALE, len) <= 2 * SCALE as int + 1,
{
    assert(-(len + 1) <= x <= len + 1) by (nonlinear_arith)
        requires
            x * x <= (len + 1) * (len + 1) - 1,
            len >= 1,
    ;
    assert(-((2 * SCALE as int + 1) * len) <= x * SCALE <= (2 * SCALE as int + 1) * len)
        by (nonlinear_arith)
        requires
            -(len + 1) <= x <= len + 1,
            len >= 1,
            SCALE == 65536,
    ;
    crate::math::lemma_sdiv_le(x * SCALE, len, 131073);
}

/// The clamped fixed-point reciprocal index used when a ray leaves the
/// denser medium.
pub open spec fn spec_inv_eta(ior: i64) -> i64 {
    let iv = sdiv(SCALE as int * SCALE as int, ior as int);
    if iv < 0 {
        0i64
    } else if iv > 16 * SCALE {
        (16 * SCALE) as i64
    } else {
        iv as i64
    }
}

/// Snell refraction, componentwise in fixed point: the refracted direction
/// when the (clamped) discriminant is positive, nothing on total internal
/// reflection.
pub open spec fn spec_refract(uv: Vec3, n: Vec3, eta: int) -> Option<Vec3> {
    let dt = sdiv(dot3(uv, n), SCALE as int);
    let dt2 = sdiv(dt * dt, SCALE as int);
    let one_minus = SCALE - dt2;
    let eta2 = sdiv(eta * eta, SCALE as int);
    let prod = sdiv(eta2 * one_minus, SCALE as int);
    let raw = SCALE - prod;
    let disc = if raw < -SCALE {
        -(SCALE as int)
    } else if raw > SCALE {
        SCALE as int
    } else {
        raw
    };
    if disc > 0 {
        let cq = spec_isqrt(disc * SCALE);
        Some(
            Vec3 {
                x: (sdiv((uv.x - sdiv(n.x * dt, SCALE as int)) * eta, SCALE as int) - sdiv(
                    n.x * cq,
                    SCALE as int,
                )) as i64,
                y: (sdiv((uv.y - sdiv(n.y * dt, SCALE as int)) * eta, SCALE as int) - sdiv(
                    n.y * cq,
                    SCALE as int,
                )) as i64,
                z: (sdiv((uv.z - sdiv(n.z * dt, SCALE as int)) * eta, SCALE as int) - sdiv(
                    n.z * cq,
                    SCALE as int,
                )) as i64,
            },
        )
    } else {
        None
    }
}

/// The Schlick reflectance, componentwise in fixed point:
/// `r0 + (1 - r0) (1 - cos)^5` with `r0 = ((ior - 1) / (ior + 1))^2`.
pub open spec fn spec_schlick(cosine: i64, ref_idx: i64) -> int {
    let r0s = sdiv((ref_idx - SCALE) * SCALE, ref_idx + SCALE);
    let r0 = sdiv(r0s * r0s, SCALE as int);
    let raw = SCALE - cosine;
    let omc = if raw < 0 {
        0int
    } else if raw > 2 * SCALE {
        2 * SCALE as int
    } else {
        raw
    };
    let p2 = sdiv(omc * omc, SCALE as int);
    let p4 = sdiv(p2 * p2, SCALE as int);
    let p5 = sdiv(p4 * omc, SCALE as int);
    r0 + sdiv((SCALE - r0) * p5, SCALE as int)
}

/// The scattering law.  Writes the attenuation into `color` and returns
/// the scattered ray, or nothing when the sample is absorbed.
pub fn scatter(ray: &Ray, rec: HitRecord, color: &mut Vec3, material: &Material) -> (res: Option<
    Ray,
>)
    requires
        crate::ray::ray_wf(*ray),
        dot3(ray.direction, ray.direction) > 0,
        in_range(rec.normal, 131073),
        in_range(rec.p, 0x8001000),
        material_wf(*material),
    ensures
        match *material {
            Material::Lambertian(albedo) => {
                &&& res is Some
                &&& *final(color) == albedo
                &&& res->Some_0.origin == rec.p
                &&& exists|u: Vec3|
                    in_range(u, SCALE as int) && dot3(u, u) < SCALE as int * SCALE as int && (
                    #[trigger] res->Some_0.direction) == (Vec3 {
                        x: (rec.normal.x + u.x) as i64,
                        y: (rec.normal.y + u.y) as i64,
                        z: (rec.normal.z + u.z) as i64,
                    })
            },
            Material::Metal(albedo, fuzz) => {
                &&& *final(color) == albedo
                &&& res is Some ==> res->Some_0.origin == rec.p && dot3(
                    res->Some_0.direction,
                    rec.normal,
                ) > 0
                &&& exists|u: Vec3|
                    (#[trigger] in_range(u, SCALE as int)) && dot3(u, u) < SCALE as int * SCALE
                        as int && res == ({
                        let fuzzed = Vec3 {
                            x: (spec_mirror_dir(*ray, rec).x + sdiv(
                                u.x * fuzz,
                                SCALE as int,
                            )) as i64,
                            y: (spec_mirror_dir(*ray, rec).y + sdiv(
                                u.y * fuzz,
                                SCALE as int,
                            )) as i64,
                            z: (spec_mirror_dir(*ray, rec).z + sdiv(
                                u.z * fuzz,
                                SCALE as int,
                            )) as i64,
                        };
                        if dot3(fuzzed, rec.normal) > 0 {
                            Some(Ray { origin: rec.p, direction: fuzzed })
                        } else {
                            None::<Ray>
                        }
                    })
                &&& fuzz == 0 ==> res == (if dot3(spec_mirror_dir(*ray, rec), rec.normal) > 0 {
                    Some(Ray { origin: rec.p, direction: spec_mirror_dir(*ray, rec) })
                } else {
                    None::<Ray>
                })
            },
            Material::Dielectric(ior) => {
                &&& *final(color) == spec_white()
                &&& res is Some
                &&& res->Some_0.origin == rec.p
                &&& ({
                    let ud = spec_unit(ray.direction);
                    let going_out = dot3(ud, rec.normal) > 0;
                    let outward = if going_out {
                        Vec3 {
                            x: (-rec.normal.x) as i64,
                            y: (-rec.normal.y) as i64,
                            z: (-rec.normal.z) as i64,
                        }
                    } else {
                        rec.normal
                    };
                    let eta = if going_out {
                        ior
                    } else {
                        spec_inv_eta(ior)
                    };
                    res->Some_0.direction == spec_mirror_dir(*ray, rec) || spec_refract(
                        ud,
                        outward,
                        eta as int,
                    ) == Some(res->Some_0.direction)
                })
            },
            Material::Mirror => {
                &&& *final(color) == spec_white()
                &&& res == (if dot3(spec_mirror_dir(*ray, rec), rec.normal) > 0 {
                    Some(Ray { origin: rec.p, direction: spec_mirror_dir(*ray, rec) })
                } else {
                    None::<Ray>
                })
            },
        },
        res is Some ==> crate::ray::ray_wf(res->Some_0),
{
    match material {
        Material::Lambertian(col) => {
            let u = random_unit_vec3();
            let dir = Vec3 {
                x: rec.normal.x + u.x,
                y: rec.normal.y + u.y,
                z: rec.normal.z + u.z,
            };
            color.x = col.x;
            color.y = col.y;
            color.z = col.z;
            Some(Ray::new(rec.p, dir))
        },
        Material::Metal(col, fuzz) => {
            let unit_dir = unit_of(ray.direction());
            let reflected = reflect(unit_dir, rec.normal);
            let u = random_unit_vec3();
            proof {
                crate::math::lemma_mul_bound(u.x as int, *fuzz as int, 65536, 65536);
                crate::math::lemma_mul_bound(u.y as int, *fuzz as int, 65536, 65536);
                crate::math::lemma_mul_bound(u.z as int, *fuzz as int, 65536, 65536);
                crate::math::lemma_sdiv_le(u.x as int * *fuzz as int, SCALE as int, 65536);
                crate::math::lemma_sdiv_le(u.y as int * *fuzz as int, SCALE as int, 65536);
                crate::math::lemma_sdiv_le(u.z as int * *fuzz as int, SCALE as int, 65536);
            }
            proof {
                if *fuzz == 0 {
                    assert(forall|a: int| #[trigger] (a * 0) == 0) by (nonlinear_arith);
                    assert(sdiv(0, SCALE as int) == 0);
                }
            }
            let fx = mul_fx(u.x, *fuzz);
            let fy = mul_fx(u.y, *fuzz);
            let fz = mul_fx(u.z, *fuzz);
            let dir = Vec3 { x: reflected.x + fx, y: reflected.y + fy, z: reflected.z + fz };
            color.x = col.x;
            color.y = col.y;
            color.z = col.z;
            proof {
                crate::vec3::lemma_dot_bound(dir, rec.normal, 0x10000000);
            }
            let dn = dir.dot(&rec.normal);
            if dn > 0 {
                Some(Ray::new(rec.p, dir))
            } else {
                None
            }
        },
        Material::Mirror => {
            let unit_dir = unit_of(ray.direction());
            let reflected = reflect(unit_dir, rec.normal);
            color.x = SCALE;
            color.y = SCALE;
            color.z = SCALE;
            proof {
                crate::vec3::lemma_dot_bound(reflected, rec.normal, 0x10000000);
            }
            let dn = reflected.dot(&rec.normal);
            if dn > 0 {
                Some(Ray::new(rec.p, reflected))
            } else {
                None
            }
        },
        Material::Dielectric(refractive_index) => {
            color.x = SCALE;
            color.y = SCALE;
            color.z = SCALE;
            let unit_dir = unit_of(ray.direction());
            let reflected = reflect(unit_dir, rec.normal);
            proof {
                crate::vec3::lemma_dot_bound(unit_dir, rec.normal, 0x10000000);
            }
            let d_dot_n = unit_dir.dot(&rec.normal);
            let going_out = d_dot_n > 0;
            let outward = if going_out {
                rec.normal.neg()
            } else {
                rec.normal
            };
            let ni_over_nt = if going_out {
                *refractive_index
            } else {
                // 1 / ior in fixed point, capped at the same bound as ior
                let inv = crate::math::div_trunc(
                    (SCALE as i128) * (SCALE as i128),
                    *refractive_index as i128,
                );
                proof {
                    crate::math::lemma_sdiv_le(
                        SCALE as int * SCALE as int,
                        *refractive_index as int,
                        SCALE as int * SCALE as int,
                    );
                }
                clamp_fx(inv as i64, 0, 16 * SCALE)
            };
            proof {
                crate::vec3::lemma_dot_bound(spec_unit(ray.direction), rec.normal, 131073);
                crate::math::lemma_sdiv_le(
                    dot3(spec_unit(ray.direction), rec.normal),
                    SCALE as int,
                    851968,
                );
            }
            let cos_base = sdiv_i64(d_dot_n, SCALE);
            proof {
                crate::math::lemma_mul_bound(
                    cos_base as int,
                    *refractive_index as int,
                    851968,
                    1048576,
                );
                crate::math::lemma_sdiv_le(
                    cos_base as int * *refractive_index as int,
                    SCALE as int,
                    13631488,
                );
            }
            let cosine = if going_out {
                mul_fx(cos_base, *refractive_index)
            } else {
                -cos_base
            };
            match refract(unit_dir, outward, ni_over_nt) {
                Some(refracted) => {
                    let s = schlick(cosine, *refractive_index);
                    if random_fx() > s {
                        return Some(Ray::new(rec.p, refracted));
                    }
                    Some(Ray::new(rec.p, reflected))
                },
                None => Some(Ray::new(rec.p, reflected)),
            }
        },
    }
}

/// Truncated division of a bounded value by a positive constant.
fn sdiv_i64(a: i64, d: i64) -> (r: i64)
    requires
        d > 0,
        -0x4000000000000000 <= a <= 0x4000000000000000,
    ensures
        r == sdiv(a as int, d as int),
        -0x4000000000000000 <= r <= 0x4000000000000000,
{
    proof {
        crate::vec3::lemma_sdiv_bound(a as int, 0x4000000000000000);
    }
    crate::math::div_trunc(a as i128, d as i128) as i64
}

/// Snell refraction in fixed point; nothing when total internal reflection
/// occurs.  The result direction has bounded components.
fn refract(uv: Vec3, n: Vec3, etai_over_etat: i64) -> (res: Option<Vec3>)
    requires
        in_range(uv, 2 * SCALE as int + 1),
        in_range(n, 2 * SCALE as int + 1),
        0 <= etai_over_etat <= 16 * SCALE,
    ensures
        res == spec_refract(uv, n, etai_over_etat as int),
        res is Some ==> in_range(res->Some_0, 0x4000000),
{
    proof {
        crate::vec3::lemma_dot_bound(uv, n, 131073);
        crate::math::lemma_sdiv_le(dot3(uv, n), SCALE as int, 851968);
    }
    let dt = sdiv_i64(uv.dot(&n), SCALE);
    proof {
        crate::math::lemma_mul_bound(dt as int, dt as int, 851968, 851968);
        crate::math::lemma_sdiv_le(dt as int * dt as int, SCALE as int, 11075584);
        crate::math::lemma_mul_bound(
            etai_over_etat as int,
            etai_over_etat as int,
            1048576,
            1048576,
        );
        crate::math::lemma_sdiv_le(
            etai_over_etat as int * etai_over_etat as int,
            SCALE as int,
            16777216,
        );
    }
    let dt2 = mul_fx(dt, dt);
    let one_minus = SCALE - dt2;
    let eta2 = mul_fx(etai_over_etat, etai_over_etat);
    proof {
        crate::math::lemma_mul_bound(
            eta2 as int,
            one_minus as int,
            16777216,
            11141120,
        );
        crate::math::lemma_sdiv_le(
            eta2 as int * one_minus as int,
            SCALE as int,
            2852126720,
        );
    }
    let prod = mul_fx(eta2, one_minus);
    let disc = clamp_fx(SCALE - prod, -SCALE, SCALE);
    if disc > 0 {
        let c = isqrt_u128(((disc as u128)) * (SCALE as u128)) as i64;
        proof {
            crate::math::lemma_isqrt_bounds(disc as int * SCALE as int);
            assert(spec_isqrt(disc as int * SCALE as int) <= SCALE) by (nonlinear_arith)
                requires
                    spec_isqrt(disc as int * SCALE as int) * spec_isqrt(
                        disc as int * SCALE as int,
                    ) <= disc as int * SCALE as int,
                    spec_isqrt(disc as int * SCALE as int) >= 0,
                    disc as int * SCALE as int <= SCALE as int * SCALE as int,
                    SCALE == 65536,
            ;
            crate::math::lemma_mul_bound(n.x as int, dt as int, 131073, 851968);
            crate::math::lemma_mul_bound(n.y as int, dt as int, 131073, 851968);
            crate::math::lemma_mul_bound(n.z as int, dt as int, 131073, 851968);
            crate::math::lemma_sdiv_le(n.x as int * dt as int, SCALE as int, 1703950);
            crate::math::lemma_sdiv_le(n.y as int * dt as int, SCALE as int, 1703950);
            crate::math::lemma_sdiv_le(n.z as int * dt as int, SCALE as int, 1703950);
        }
        let ax = uv.x - mul_fx(n.x, dt);
        let ay = uv.y - mul_fx(n.y, dt);
        let az = uv.z - mul_fx(n.z, dt);
        proof {
            crate::math::lemma_mul_bound(
                ax as int,
                etai_over_etat as int,
                1900544,
                1048576,
            );
            crate::math::lemma_mul_bound(
                ay as int,
                etai_over_etat as int,
                1900544,
                1048576,
            );
            crate::math::lemma_mul_bound(
                az as int,
                etai_over_etat as int,
                1900544,
                1048576,
            );
            crate::math::lemma_sdiv_le(
                ax as int * etai_over_etat as int,
                SCALE as int,
                30408704,
            );
            crate::math::lemma_sdiv_le(
                ay as int * etai_over_etat as int,
                SCALE as int,
                30408704,
            );
            crate::math::lemma_sdiv_le(
                az as int * etai_over_etat as int,
                SCALE as int,
                30408704,
            );
            crate::math::lemma_mul_bound(n.x as int, c as int, 131073, SCALE as int);
            crate::math::lemma_mul_bound(n.y as int, c as int, 131073, SCALE as int);
            crate::math::lemma_mul_bound(n.z as int, c as int, 131073, SCALE as int);
            crate::math::lemma_sdiv_le(n.x as int * c as int, SCALE as int, 131073);
            crate::math::lemma_sdiv_le(n.y as int * c as int, SCALE as int, 131073);
            crate::math::lemma_sdiv_le(n.z as int * c as int, SCALE as int, 131073);
        }
        let bx = mul_fx(ax, etai_over_etat);
        let by = mul_fx(ay, etai_over_etat);
        let bz = mul_fx(az, etai_over_etat);
        Some(
            Vec3 {
                x: bx - mul_fx(n.x, c),
                y: by - mul_fx(n.y, c),
                z: bz - mul_fx(n.z, c),
            },
        )
    } else {
        None
    }
}

/// The Schlick reflectance approximation in fixed point:
/// `r0 + (1 - r0) (1 - cos)^5` with `r0 = ((ior - 1) / (ior + 1))^2`.
fn schlick(cosine: i64, ref_idx: i64) -> (r: i64)
    requires
        -0x100000000 <= cosine <= 0x100000000,
        0 < ref_idx <= 16 * SCALE,
    ensures
        r as int == spec_schlick(cosine, ref_idx),
        -0x1000000000000 <= r <= 0x1000000000000,
        cosine >= 0 ==> 0 <= r <= SCALE,
{
    let r0s = crate::math::div_trunc(
        ((ref_idx - SCALE) as i128) * (SCALE as i128),
        (ref_idx + SCALE) as i128,
    );
    proof {
        assert(-(17 * (SCALE as int) * ((ref_idx + SCALE) as int)) <= ((ref_idx - SCALE) as int)
            * (SCALE as int) <= 17 * (SCALE as int) * ((ref_idx + SCALE) as int))
            by (nonlinear_arith)
            requires
                0 < ref_idx <= 16 * SCALE,
                SCALE == 65536,
        ;
        crate::math::lemma_sdiv_le(
            (ref_idx - SCALE) as int * SCALE as int,
            (ref_idx + SCALE) as int,
            1114112,
        );
    }
    let r0sl = r0s as i64;
    proof {
        crate::math::lemma_mul_bound(
            r0sl as int,
            r0sl as int,
            1114112,
            1114112,
        );
        crate::math::lemma_sdiv_le(r0sl as int * r0sl as int, SCALE as int, 18939904);
    }
    let r0 = mul_fx(r0sl, r0sl);
    let omc = clamp_fx(SCALE - cosine, 0, 2 * SCALE);
    proof {
        crate::math::lemma_mul_bound(omc as int, omc as int, 131072, 131072);
        crate::math::lemma_sdiv_le(omc as int * omc as int, SCALE as int, 262144);
    }
    let p2 = mul_fx(omc, omc);
    proof {
        crate::math::lemma_mul_bound(p2 as int, p2 as int, 262144, 262144);
        crate::math::lemma_sdiv_le(p2 as int * p2 as int, SCALE as int, 1048576);
    }
    let p4 = mul_fx(p2, p2);
    proof {
        crate::math::lemma_mul_bound(p4 as int, omc as int, 1048576, 131072);
        crate::math::lemma_sdiv_le(p4 as int * omc as int, SCALE as int, 2097152);
    }
    let p5 = mul_fx(p4, omc);
    proof {
        crate::math::lemma_mul_bound(
            (SCALE - r0) as int,
            p5 as int,
            19005440,
            2097152,
        );
        crate::math::lemma_sdiv_le(
            (SCALE - r0) as int * p5 as int,
            SCALE as int,
            608174080,
        );
    }
    let tail = mul_fx(SCALE - r0, p5);
    proof {
        assert(-(SCALE as int) <= r0s as int <= SCALE as int) by {
            assert(-((SCALE as int) * ((ref_idx + SCALE) as int)) <= ((ref_idx - SCALE) as int)
                * (SCALE as int) <= (SCALE as int) * ((ref_idx + SCALE) as int))
                by (nonlinear_arith)
                requires
                    0 < ref_idx,
                    SCALE == 65536,
            ;
            crate::math::lemma_sdiv_le(
                (ref_idx - SCALE) as int * SCALE as int,
                (ref_idx + SCALE) as int,
                SCALE as int,
            );
        }
        assert(0 <= r0s as int * r0s as int) by (nonlinear_arith);
        vstd::arithmetic::div_mod::lemma_div_pos_is_pos(r0s as int * r0s as int, SCALE as int);
        assert(r0s as int * r0s as int <= SCALE as int * SCALE as int) by (nonlinear_arith)
            requires
                -(SCALE as int) <= r0s as int <= SCALE as int,
        ;
        crate::math::lemma_sdiv_le(r0s as int * r0s as int, SCALE as int, SCALE as int);
        if cosine >= 0 {
            lemma_pow_channel(omc as int);
            assert(0 <= p2 <= SCALE && 0 <= p4 <= SCALE && 0 <= p5 <= SCALE);
            assert(0 <= (SCALE - r0) as int * p5 as int <= (SCALE - r0) as int * SCALE as int)
                by (nonlinear_arith)
                requires
                    0 <= p5 <= SCALE,
                    0 <= SCALE - r0,
            ;
            crate::math::lemma_sdiv_exact((SCALE - r0) as int, SCALE as int);
            crate::math::lemma_sdiv_monotone(
                (SCALE - r0) as int * p5 as int,
                (SCALE - r0) as int * SCALE as int,
                SCALE as int,
            );
            vstd::arithmetic::div_mod::lemma_div_pos_is_pos(
                (SCALE - r0) as int * p5 as int,
                SCALE as int,
            );
        }
    }
    r0 + tail
}

/// Powers of a channel value in `[0, 1]` stay in `[0, 1]`.
proof fn lemma_pow_channel(omc: int)
    requires
        0 <= omc <= SCALE,
    ensures
        0 <= sdiv(omc * omc, SCALE as int) <= SCALE,
        0 <= sdiv(sdiv(omc * omc, SCALE as int) * sdiv(omc * omc, SCALE as int), SCALE as int)
            <= SCALE,
        0 <= sdiv(
            sdiv(sdiv(omc * omc, SCALE as int) * sdiv(omc * omc, SCALE as int), SCALE as int)
                * omc,
            SCALE as int,
        ) <= SCALE,
{
    lemma_unit_prod(omc, omc);
    let p2 = sdiv(omc * omc, SCALE as int);
    lemma_unit_prod(p2, p2);
    let p4 = sdiv(p2 * p2, SCALE as int);
    lemma_unit_prod(p4, omc);
}

/// A fixed-point product of two values in `[0, 1]` stays in `[0, 1]`.
proof fn lemma_unit_prod(a: int, b: int)
    requires
        0 <= a <= SCALE,
        0 <= b <= SCALE,
    ensures
        0 <= sdiv(a * b, SCALE as int) <= SCALE,
{
    assert(0 <= a * b <= SCALE as int * SCALE as int) by (nonlinear_arith)
        requires
            0 <= a <= SCALE,
            0 <= b <= SCALE,
    ;
    crate::math::lemma_sdiv_le(a * b, SCALE as int, SCALE as int);
    vstd::arithmetic::div_mod::lemma_div_pos_is_pos(a * b, SCALE as int);
}

/// Clamp a value into a closed interval.
pub fn clamp_fx(v: i64, lo: i64, hi: i64) -> (r: i64)
    requires
        lo <= hi,
    ensures
        r == if v < lo {
            lo
        } else if v > hi {
            hi
        } else {
            v
        },
        lo <= r <= hi,
{
    if v < lo {
        lo
    } else if v > hi {
        hi
    } else {
        v
    }
}

} // verus!

//! The integrator and the framebuffer pipeline: radiance, per-pixel
//! sampling, row scheduling and the gamma-2 tone map.

use vstd::prelude::*;
use crate::math::{sdiv, spec_isqrt, SCALE, T_FAR, isqrt_u128, mul_fx};
use crate::vec3::{Vec3, dot3, in_range};
use crate::ray::{Ray, ray_wf};
use crate::hit::HitRecord;
use crate::material::{Material, scatter, material_wf, clamp_fx, spec_unit, spec_white};
use crate::prim::{prim_hit_t, prim_rec_ok, lemma_prim_hit_props, lemma_rec_bounds};
use crate::scene::{Hittables, hittables_wf, scene_found_ok, scene_beats};
use crate::camera::{Camera, camera_wf};

verus! {

/// The near plane of every scene query (0.001 in fixed point).
pub const T_NEAR: i64 = 65;

/// The shadow-ray bias (0.01 in fixed point).
pub const SHADOW_BIAS: i64 = 655;

/// The in-shadow attenuation (0.3 in fixed point).
pub const SHADOW_FACTOR: i64 = 19660;

/// The sky horizon colour (0.68, 0.8, 1.0) in fixed point.
pub const SKY_R: i64 = 44564;

pub const SKY_G: i64 = 52428;

pub const SKY_B: i64 = 65536;

/// The sky gradient for a ray: blend white and the sky colour by the
/// (clamped) height of the unit direction.  A degenerate direction reads
/// as level.
pub open spec fn spec_sky(r: Ray) -> Vec3 {
    let t = if dot3(r.direction, r.direction) <= 0 {
        SCALE as int / 2
    } else {
        let uy = spec_unit(r.direction).y;
        if (uy + SCALE) / 2 < 0 {
            0
        } else if (uy + SCALE) / 2 > SCALE {
            SCALE as int
        } else {
            (uy + SCALE) / 2
        }
    };
    Vec3 {
        x: (SCALE - t + sdiv(t * SKY_R, SCALE as int)) as i64,
        y: (SCALE - t + sdiv(t * SKY_G, SCALE as int)) as i64,
        z: (SCALE - t + sdiv(t * SKY_B, SCALE as int)) as i64,
    }
}

/// Whether any primitive of the scene is hit by the ray in the standard
/// query window.
pub open spec fn spec_hits_something(h: Hittables, r: Ray) -> bool {
    exists|i: int|
        0 <= i < h.prims@.len() && (#[trigger] prim_hit_t(
            h.prims@[i],
            r,
            T_NEAR as int,
            T_FAR as int,
        )) is Some
}

/// One sky evaluation.
fn sky_color(ray: &Ray) -> (c: Vec3)
    requires
        ray_wf(*ray),
    ensures
        c == spec_sky(*ray),
        0 <= c.x <= SCALE,
        0 <= c.y <= SCALE,
        0 <= c.z <= SCALE,
{
    let d = ray.direction();
    let dd = d.length_squared();
    let t: i64 = if dd <= 0 {
        SCALE / 2
    } else {
        let u = d.unit_vector();
        proof {
            crate::math::lemma_isqrt_bounds(dot3(d, d));
            let len = spec_isqrt(dot3(d, d));
            assert(len >= 1) by (nonlinear_arith)
                requires
                    dot3(d, d) >= 1,
                    dot3(d, d) < (len + 1) * (len + 1),
                    len >= 0,
            ;
            crate::vec3::lemma_sdiv_bound(d.y * SCALE, 0x7fffffffffffffff);
        }
        clamp_fx((u.y + SCALE) / 2, 0, SCALE)
    };
    proof {
        crate::math::lemma_mul_bound(t as int, SKY_R as int, 65536, 65536);
        crate::math::lemma_mul_bound(t as int, SKY_G as int, 65536, 65536);
        crate::math::lemma_mul_bound(t as int, SKY_B as int, 65536, 65536);
        crate::math::lemma_sdiv_le(t as int * SKY_R as int, SCALE as int, 65536);
        crate::math::lemma_sdiv_le(t as int * SKY_G as int, SCALE as int, 65536);
        crate::math::lemma_sdiv_le(t as int * SKY_B as int, SCALE as int, 65536);
        lemma_sky_channel(t as int, SKY_R as int);
        lemma_sky_channel(t as int, SKY_G as int);
        lemma_sky_channel(t as int, SKY_B as int);
    }
    Vec3 {
        x: SCALE - t + mul_fx(t, SKY_R),
        y: SCALE - t + mul_fx(t, SKY_G),
        z: SCALE - t + mul_fx(t, SKY_B),
    }
}

/// A blended sky channel stays within `[c, 1]`: the blend never dips
/// below the horizon colour and never exceeds white.
proof fn lemma_sky_channel(t: int, c: int)
    requires
        0 <= t <= SCALE,
        0 <= c <= SCALE,
    ensures
        0 <= SCALE - t + sdiv(t * c, SCALE as int) <= SCALE,
        c <= SCALE - t + sdiv(t * c, SCALE as int),
        c == SCALE ==> SCALE - t + sdiv(t * c, SCALE as int) == SCALE,
{
    assert(0 <= t * c <= t * SCALE) by (nonlinear_arith)
        requires
            0 <= t <= SCALE,
            0 <= c <= SCALE,
    ;
    crate::math::lemma_sdiv_le(t * c, SCALE as int, t);
    vstd::arithmetic::div_mod::lemma_div_pos_is_pos(t * c, SCALE as int);
    assert((c - SCALE + t) * SCALE <= t * c) by (nonlinear_arith)
        requires
            0 <= t <= SCALE,
            0 <= c <= SCALE,
    ;
    crate::math::lemma_sdiv_exact(c - SCALE + t, SCALE as int);
    crate::math::lemma_sdiv_monotone((c - SCALE + t) * SCALE, t * c, SCALE as int);
    if c == SCALE {
        crate::math::lemma_sdiv_exact(t, SCALE as int);
        assert(t * SCALE == SCALE as int * t) by (nonlinear_arith);
    }
}

/// Sky channels never fall below the horizon colour; the blue channel is
/// exactly full for every direction.
pub proof fn lemma_sky_bounds(r: Ray)
    ensures
        SKY_R <= spec_sky(r).x <= SCALE,
        SKY_G <= spec_sky(r).y <= SCALE,
        spec_sky(r).z == SCALE,
{
    let t = if dot3(r.direction, r.direction) <= 0 {
        SCALE as int / 2
    } else {
        let uy = spec_unit(r.direction).y;
        if (uy + SCALE) / 2 < 0 {
            0int
        } else if (uy + SCALE) / 2 > SCALE {
            SCALE as int
        } else {
            (uy + SCALE) / 2
        }
    };
    assert(0 <= t <= SCALE);
    lemma_sky_channel(t, SKY_R as int);
    lemma_sky_channel(t, SKY_G as int);
    lemma_sky_channel(t, SKY_B as int);
}

/// Componentwise fixed-point colour product.
pub open spec fn spec_mul_color(a: Vec3, b: Vec3) -> Vec3 {
    Vec3 {
        x: sdiv(a.x * b.x, SCALE as int) as i64,
        y: sdiv(a.y * b.y, SCALE as int) as i64,
        z: sdiv(a.z * b.z, SCALE as int) as i64,
    }
}

/// The attenuation a material multiplies bounced light by.
pub open spec fn spec_attenuation(m: Material) -> Vec3 {
    match m {
        Material::Lambertian(albedo) => albedo,
        Material::Metal(albedo, _) => albedo,
        Material::Dielectric(_) => spec_white(),
        Material::Mirror => spec_white(),
    }
}

/// Componentwise fixed-point product of two colour values in `[0, 1]`.
fn mul_color(a: Vec3, b: Vec3) -> (r: Vec3)
    requires
        0 <= a.x <= SCALE,
        0 <= a.y <= SCALE,
        0 <= a.z <= SCALE,
        0 <= b.x <= SCALE,
        0 <= b.y <= SCALE,
        0 <= b.z <= SCALE,
    ensures
        r == spec_mul_color(a, b),
        0 <= r.x <= SCALE,
        0 <= r.y <= SCALE,
        0 <= r.z <= SCALE,
        a.x == 0 || b.x == 0 ==> r.x == 0,
        a.y == 0 || b.y == 0 ==> r.y == 0,
        a.z == 0 || b.z == 0 ==> r.z == 0,
{
    proof {
        lemma_color_mul(a.x as int, b.x as int);
        lemma_color_mul(a.y as int, b.y as int);
        lemma_color_mul(a.z as int, b.z as int);
    }
    Vec3 { x: mul_fx(a.x, b.x), y: mul_fx(a.y, b.y), z: mul_fx(a.z, b.z) }
}

proof fn lemma_color_mul(a: int, b: int)
    requires
        0 <= a <= SCALE,
        0 <= b <= SCALE,
    ensures
        0 <= a * b <= 0x4000000000000000,
        0 <= sdiv(a * b, SCALE as int) <= SCALE,
        a == 0 || b == 0 ==> a * b == 0,
{
    assert(0 <= a * b <= SCALE as int * SCALE as int && (a == 0 || b == 0 ==> a * b == 0))
        by (nonlinear_arith)
        requires
            0 <= a <= SCALE,
            0 <= b <= SCALE,
    ;
    crate::math::lemma_sdiv_le(a * b, SCALE as int, SCALE as int);
    vstd::arithmetic::div_mod::lemma_div_pos_is_pos(a * b, SCALE as int);
}

/// What a hit returns: the record is the scene's sound-and-complete
/// nearest hit, and the colour is either black (an absorbed sample or an
/// exhausted bounce) or the product of the material's attenuation, some
/// bounced radiance in `[0, 1]`, and the deterministic shadow factor.
pub open spec fn hit_decomposes(h: Hittables, r: Ray, c: Vec3, rec: HitRecord, bounce: Vec3) -> bool {
    &&& scene_found_ok(h.prims@, r, T_NEAR as int, T_FAR as int, Some(rec))
    &&& scene_beats(h.prims@, r, T_NEAR as int, T_FAR as int, Some(rec))
    &&& 0 <= bounce.x <= SCALE
    &&& 0 <= bounce.y <= SCALE
    &&& 0 <= bounce.z <= SCALE
    &&& c == (Vec3 { x: 0i64, y: 0i64, z: 0i64 }) || c == spec_mul_color(
        spec_mul_color(spec_attenuation(rec.material), bounce),
        spec_shadow_vec(h, rec.p),
    )
}

pub open spec fn hit_radiance_ok(h: Hittables, r: Ray, c: Vec3) -> bool {
    exists|rec: HitRecord, bounce: Vec3| #[trigger] hit_decomposes(h, r, c, rec, bounce)
}

/// Recursive radiance.  The contract pins the deterministic cases: an
/// exhausted depth is black, a miss is exactly the sky gradient, a hit at
/// the final depth step is black (the recursion never goes further), and
/// every channel stays within `[0, 1]`.
pub fn ray_color(ray: &Ray, world: &Hittables, depth: i64) -> (c: Vec3)
    requires
        hittables_wf(*world),
        ray_wf(*ray),
    ensures
        0 <= c.x <= SCALE,
        0 <= c.y <= SCALE,
        0 <= c.z <= SCALE,
        depth <= 0 ==> c == (Vec3 { x: 0i64, y: 0i64, z: 0i64 }),
        depth > 0 && !spec_hits_something(*world, *ray) ==> c == spec_sky(*ray),
        depth == 1 && spec_hits_something(*world, *ray) ==> c == (Vec3 { x: 0i64, y: 0i64, z: 0i64 }),
        depth > 0 && spec_hits_something(*world, *ray) ==> hit_radiance_ok(*world, *ray, c),
    decreases (if depth > 0 {
        depth
    } else {
        0
    }) as int,
{
    if depth <= 0 {
        return Vec3 { x: 0, y: 0, z: 0 };
    }
    let hit = world.hit(ray, T_NEAR, T_FAR);
    match hit {
        None => {
            proof {
                if spec_hits_something(*world, *ray) {
                    let i = choose|i: int|
                        0 <= i < world.prims@.len() && (#[trigger] prim_hit_t(
                            world.prims@[i],
                            *ray,
                            T_NEAR as int,
                            T_FAR as int,
                        )) is Some;
                    assert(crate::octree::result_le(
                        None::<HitRecord>,
                        prim_hit_t(world.prims@[i], *ray, T_NEAR as int, T_FAR as int)->Some_0,
                    ));
                }
            }
            sky_color(ray)
        },
        Some(rec) => {
            proof {
                let i = choose|i: int|
                    0 <= i < world.prims@.len() && #[trigger] prim_hit_t(
                        world.prims@[i],
                        *ray,
                        T_NEAR as int,
                        T_FAR as int,
                    ) == Some(rec.t as int) && prim_rec_ok(world.prims@[i], *ray, rec) && T_NEAR
                        < rec.t < T_FAR;
                lemma_prim_hit_props(world.prims@[i], *ray, T_NEAR as int, T_FAR as int, rec.t as int);
                lemma_rec_bounds(world.prims@[i], *ray, rec, T_NEAR as int, T_FAR as int);
                assert(material_wf(rec.material));
            }
            let mut color = Vec3 { x: 0, y: 0, z: 0 };
            let scattered = scatter(ray, rec, &mut color, &rec.material);
            match scattered {
                None => {
                    proof {
                        let gb = Vec3 { x: 0i64, y: 0i64, z: 0i64 };
                        assert(scene_found_ok(
                            world.prims@,
                            *ray,
                            T_NEAR as int,
                            T_FAR as int,
                            Some(rec),
                        ));
                        assert(scene_beats(
                            world.prims@,
                            *ray,
                            T_NEAR as int,
                            T_FAR as int,
                            Some(rec),
                        ));
                        assert(hit_decomposes(*world, *ray, gb, rec, gb));
                        assert(hit_radiance_ok(*world, *ray, gb));
                    }
                    Vec3 { x: 0, y: 0, z: 0 }
                },
                Some(next_ray) => {
                    let albedo = clamp_color(color);
                    proof {
                        assert(albedo == spec_attenuation(rec.material)) by {
                            match rec.material {
                                Material::Lambertian(_) => {},
                                Material::Metal(_, _) => {},
                                Material::Dielectric(_) => {},
                                Material::Mirror => {},
                            }
                        }
                    }
                    let bounced = ray_color(&next_ray, world, depth - 1);
                    let lit = mul_color(albedo, bounced);
                    let shadow = shadow_attenuation(world, rec);
                    let out = mul_color(lit, shadow);
                    proof {
                        assert(scene_found_ok(
                            world.prims@,
                            *ray,
                            T_NEAR as int,
                            T_FAR as int,
                            Some(rec),
                        ));
                        assert(scene_beats(
                            world.prims@,
                            *ray,
                            T_NEAR as int,
                            T_FAR as int,
                            Some(rec),
                        ));
                        assert(spec_mul_color(spec_attenuation(rec.material), bounced)
                            == spec_mul_color(albedo, bounced));
                        assert(out == spec_mul_color(
                            spec_mul_color(spec_attenuation(rec.material), bounced),
                            spec_shadow_vec(*world, rec.p),
                        ));
                        assert(hit_decomposes(*world, *ray, out, rec, bounced));
                        assert(hit_radiance_ok(*world, *ray, out));
                    }
                    out
                },
            }
        },
    }
}

/// Clamp a colour into the unit cube.
fn clamp_color(c: Vec3) -> (r: Vec3)
    ensures
        0 <= r.x <= SCALE,
        0 <= r.y <= SCALE,
        0 <= r.z <= SCALE,
        0 <= c.x <= SCALE && 0 <= c.y <= SCALE && 0 <= c.z <= SCALE ==> r == c,
{
    Vec3 {
        x: clamp_fx(c.x, 0, SCALE),
        y: clamp_fx(c.y, 0, SCALE),
        z: clamp_fx(c.z, 0, SCALE),
    }
}

/// Whether light `li` is occluded from the point `p`: the deterministic
/// biased shadow ray toward the light meets some primitive in the half-way
/// window.
pub open spec fn spec_light_blocked(h: Hittables, p: Vec3, li: int) -> bool {
    let light = h.lights@[li];
    let ld = Vec3 {
        x: (light.x - p.x) as i64,
        y: (light.y - p.y) as i64,
        z: (light.z - p.z) as i64,
    };
    if dot3(ld, ld) <= 0 {
        false
    } else {
        let lu = spec_unit(ld);
        let pv = Vec3 {
            x: (p.x + sdiv(lu.x * SHADOW_BIAS, SCALE as int)) as i64,
            y: (p.y + sdiv(lu.y * SHADOW_BIAS, SCALE as int)) as i64,
            z: (p.z + sdiv(lu.z * SHADOW_BIAS, SCALE as int)) as i64,
        };
        let diff = Vec3 {
            x: (pv.x - light.x) as i64,
            y: (pv.y - light.y) as i64,
            z: (pv.z - light.z) as i64,
        };
        let md = spec_isqrt(dot3(diff, diff));
        if md / 2 > SHADOW_BIAS {
            exists|i: int|
                0 <= i < h.prims@.len() && (#[trigger] crate::prim::prim_hit_t(
                    h.prims@[i],
                    Ray { origin: pv, direction: lu },
                    SHADOW_BIAS as int,
                    md / 2,
                )) is Some
        } else {
            false
        }
    }
}

/// The shadow factor after the first `k` lights: every occluded light
/// scales the factor by the in-shadow attenuation.
pub open spec fn spec_shadow(h: Hittables, p: Vec3, k: int) -> int
    decreases k,
{
    if k <= 0 {
        SCALE as int
    } else if spec_light_blocked(h, p, k - 1) {
        sdiv(spec_shadow(h, p, k - 1) * SHADOW_FACTOR, SCALE as int)
    } else {
        spec_shadow(h, p, k - 1)
    }
}

/// The shadow factor as a grey colour.
pub open spec fn spec_shadow_vec(h: Hittables, p: Vec3) -> Vec3 {
    let sv = spec_shadow(h, p, h.lights@.len() as int);
    Vec3 { x: sv as i64, y: sv as i64, z: sv as i64 }
}

/// The multiplicative shadow factor: for each light, a deterministic
/// biased shadow ray; any occluder scales the factor by `SHADOW_FACTOR`.
/// The result is exactly the grey value `spec_shadow` prescribes.
fn shadow_attenuation(world: &Hittables, rec: HitRecord) -> (f: Vec3)
    requires
        hittables_wf(*world),
        in_range(rec.p, 0x8001000),
    ensures
        f == spec_shadow_vec(*world, rec.p),
        0 <= f.x <= SCALE,
        f.x == f.y && f.y == f.z,
{
    proof {
        lemma_shadow_range(*world, rec.p, world.lights@.len() as int);
    }
    let mut f = Vec3 { x: SCALE, y: SCALE, z: SCALE };
    let mut li: usize = 0;
    while li < world.lights.len()
        invariant
            li <= world.lights@.len(),
            hittables_wf(*world),
            in_range(rec.p, 0x8001000),
            0 <= f.x <= SCALE,
            f.x == f.y && f.y == f.z,
            f.x as int == spec_shadow(*world, rec.p, li as int),
        decreases world.lights@.len() - li,
    {
        let light = world.lights[li];
        let ldx = light.x - rec.p.x;
        let ldy = light.y - rec.p.y;
        let ldz = light.z - rec.p.z;
        let ld = Vec3 { x: ldx, y: ldy, z: ldz };
        let dd = ld.length_squared();
        let ghost blocked_spec = spec_light_blocked(*world, rec.p, li as int);
        if dd > 0 {
            let lu = crate::material::unit_of(ld);
            proof {
                crate::math::lemma_mul_bound(lu.x as int, SHADOW_BIAS as int, 131073, 655);
                crate::math::lemma_mul_bound(lu.y as int, SHADOW_BIAS as int, 131073, 655);
                crate::math::lemma_mul_bound(lu.z as int, SHADOW_BIAS as int, 131073, 655);
                crate::math::lemma_sdiv_le(lu.x as int * SHADOW_BIAS as int, SCALE as int, 1311);
                crate::math::lemma_sdiv_le(lu.y as int * SHADOW_BIAS as int, SCALE as int, 1311);
                crate::math::lemma_sdiv_le(lu.z as int * SHADOW_BIAS as int, SCALE as int, 1311);
            }
            let px = rec.p.x + mul_fx(lu.x, SHADOW_BIAS);
            let py = rec.p.y + mul_fx(lu.y, SHADOW_BIAS);
            let pz = rec.p.z + mul_fx(lu.z, SHADOW_BIAS);
            let pv = Vec3 { x: px, y: py, z: pz };
            let diff = Vec3 { x: px - light.x, y: py - light.y, z: pz - light.z };
            let max_dist = diff.length();
            let shadow_ray = Ray::new(pv, lu);
            if max_dist / 2 > SHADOW_BIAS {
                let blocked = world.hit(&shadow_ray, SHADOW_BIAS, max_dist / 2);
                proof {
                    match blocked {
                        Some(brec) => {
                            let i = choose|i: int|
                                0 <= i < world.prims@.len() && #[trigger] crate::prim::prim_hit_t(
                                    world.prims@[i],
                                    shadow_ray,
                                    SHADOW_BIAS as int,
                                    (max_dist / 2) as int,
                                ) == Some(brec.t as int) && crate::prim::prim_rec_ok(
                                    world.prims@[i],
                                    shadow_ray,
                                    brec,
                                ) && SHADOW_BIAS < brec.t < max_dist / 2;
                            assert(blocked_spec);
                        },
                        None => {
                            if blocked_spec {
                                let i = choose|i: int|
                                    0 <= i < world.prims@.len() && (
                                    #[trigger] crate::prim::prim_hit_t(
                                        world.prims@[i],
                                        shadow_ray,
                                        SHADOW_BIAS as int,
                                        (max_dist / 2) as int,
                                    )) is Some;
                                assert(crate::octree::result_le(
                                    blocked,
                                    crate::prim::prim_hit_t(
                                        world.prims@[i],
                                        shadow_ray,
                                        SHADOW_BIAS as int,
                                        (max_dist / 2) as int,
                                    )->Some_0,
                                ));
                            }
                        },
                    }
                }
                if blocked.is_some() {
                    proof {
                        lemma_color_mul(f.x as int, SHADOW_FACTOR as int);
                    }
                    f = Vec3 {
                        x: mul_fx(f.x, SHADOW_FACTOR),
                        y: mul_fx(f.y, SHADOW_FACTOR),
                        z: mul_fx(f.z, SHADOW_FACTOR),
                    };
                }
            }
        }
        li += 1;
    }
    f
}

/// The shadow factor stays within `[0, 1]` for any number of lights.
proof fn lemma_shadow_range(h: Hittables, p: Vec3, k: int)
    ensures
        0 <= spec_shadow(h, p, k) <= SCALE,
    decreases (if k > 0 {
        k
    } else {
        0
    }),
{
    if k <= 0 {
    } else {
        lemma_shadow_range(h, p, k - 1);
        if spec_light_blocked(h, p, k - 1) {
            lemma_color_mul(spec_shadow(h, p, k - 1), SHADOW_FACTOR as int);
        }
    }
}

/// The gamma-2 tone map for one channel: `floor(256 * clamp(sqrt(c / n),
/// 0, 0.999))`, with the square root at fixed-point scale.
pub open spec fn spec_tonemap(c: int, n: int) -> int {
    let v = if c <= 0 {
        0
    } else {
        c / n
    };
    let s = spec_isqrt(v * SCALE);
    let k = if s > 65470 {
        65470
    } else {
        s
    };
    k / 256
}

/// Tone-map one accumulated channel over `n` samples to a byte.
pub fn tonemap_channel(c: i64, n: usize) -> (r: u8)
    requires
        n >= 1,
        c <= 0x400000000000,
    ensures
        r as int == spec_tonemap(c as int, n as int),
{
    let v: i64 = if c <= 0 {
        0
    } else {
        proof {
            vstd::arithmetic::div_mod::lemma_div_pos_is_pos(c as int, n as int);
            vstd::arithmetic::div_mod::lemma_div_nonincreasing(c as int, n as int);
        }
        ((c as u64) / (n as u64)) as i64
    };
    proof {
        crate::math::lemma_mul_bound(v as int, SCALE as int, 0x400000000000, 65536);
        crate::math::lemma_isqrt_bounds(v as int * SCALE as int);
        assert(v as int * SCALE as int >= 0) by (nonlinear_arith)
            requires
                v >= 0,
        ;
        assert(spec_isqrt(v as int * SCALE as int) <= 0x80000000) by (nonlinear_arith)
            requires
                spec_isqrt(v as int * SCALE as int) >= 0,
                spec_isqrt(v as int * SCALE as int) * spec_isqrt(v as int * SCALE as int) <= v
                    as int * SCALE as int,
                v as int * SCALE as int <= 0x4000000000000000,
        ;
    }
    let s = isqrt_u128(((v as u128)) * (SCALE as u128)) as u64;
    let k: u64 = if s > 65470 {
        65470
    } else {
        s
    };
    (k / 256) as u8
}

/// The tone map sends zero to zero and any full channel to 255.
pub proof fn lemma_tonemap_ends(n: int)
    requires
        n >= 1,
    ensures
        spec_tonemap(0, n) == 0,
        forall|c: int| c >= n * SCALE ==> spec_tonemap(c, n) == 255,
{
    assert(spec_isqrt(0) == 0);
    assert forall|c: int| c >= n * SCALE implies spec_tonemap(c, n) == 255 by {
        assert(c > 0) by (nonlinear_arith)
            requires
                c >= n * SCALE,
                n >= 1,
                SCALE == 65536,
        ;
        let v = c / n;
        assert(v >= SCALE) by {
            vstd::arithmetic::div_mod::lemma_div_multiples_vanish(SCALE as int, n);
            vstd::arithmetic::div_mod::lemma_div_is_ordered(n * SCALE, c, n);
            assert(n * SCALE == SCALE as int * n) by (nonlinear_arith);
        }
        crate::math::lemma_isqrt_bounds(v * SCALE);
        let s = spec_isqrt(v * SCALE);
        assert(s >= SCALE) by (nonlinear_arith)
            requires
                v >= SCALE,
                SCALE == 65536,
                (s + 1) * (s + 1) > v * SCALE,
                s >= 0,
        ;
    }
}

/// The tone map is monotone in the accumulated channel.
pub proof fn lemma_tonemap_monotone(c1: int, c2: int, n: int)
    requires
        n >= 1,
        c1 <= c2,
    ensures
        spec_tonemap(c1, n) <= spec_tonemap(c2, n),
{
    let v1 = if c1 <= 0 {
        0
    } else {
        c1 / n
    };
    let v2 = if c2 <= 0 {
        0
    } else {
        c2 / n
    };
    assert(v1 <= v2) by {
        if c1 > 0 {
            vstd::arithmetic::div_mod::lemma_div_is_ordered(c1, c2, n);
        } else if c2 > 0 {
            vstd::arithmetic::div_mod::lemma_div_pos_is_pos(c2, n);
        }
    }
    assert(v1 * SCALE <= v2 * SCALE) by (nonlinear_arith)
        requires
            v1 <= v2,
            SCALE == 65536,
    ;
    assert(v1 * SCALE >= 0 && v2 * SCALE >= 0) by (nonlinear_arith)
        requires
            v1 >= 0,
            v2 >= 0,
            SCALE == 65536,
    ;
    crate::math::lemma_isqrt_monotone(v1 * SCALE, v2 * SCALE);
    vstd::arithmetic::div_mod::lemma_div_is_ordered(
        if spec_isqrt(v1 * SCALE) > 65470 {
            65470int
        } else {
            spec_isqrt(v1 * SCALE)
        },
        if spec_isqrt(v2 * SCALE) > 65470 {
            65470int
        } else {
            spec_isqrt(v2 * SCALE)
        },
        256,
    );
}

impl Vec3 {
    /// Tone-map an accumulated colour over `samples_per_pixel` samples to
    /// three bytes.
    pub fn to_rgb(self, samples_per_pixel: usize) -> (bytes: Vec<u8>)
        requires
            samples_per_pixel >= 1,
            self.x <= 0x400000000000,
            self.y <= 0x400000000000,
            self.z <= 0x400000000000,
        ensures
            bytes@.len() == 3,
            bytes@[0] as int == spec_tonemap(self.x as int, samples_per_pixel as int),
            bytes@[1] as int == spec_tonemap(self.y as int, samples_per_pixel as int),
            bytes@[2] as int == spec_tonemap(self.z as int, samples_per_pixel as int),
    {
        let r = tonemap_channel(self.x, samples_per_pixel);
        let g = tonemap_channel(self.y, samples_per_pixel);
        let b = tonemap_channel(self.z, samples_per_pixel);
        let mut bytes: Vec<u8> = Vec::new();
        bytes.push(r);
        bytes.push(g);
        bytes.push(b);
        bytes
    }
}

/// Accumulate `samples_per_pixel` radiance samples for one pixel.
/// Whether a render can only ever see sky: no primitives and bounces
/// allowed, so every sample is exactly one sky evaluation.
pub open spec fn sky_only(h: Hittables, depth: int) -> bool {
    h.prims@.len() == 0 && depth > 0
}

/// The envelope of an accumulated pixel: channels within `[0, spp]`, and
/// for a sky-only render the per-sample sky floors summed up — in
/// particular the blue channel is exactly full.
pub open spec fn acc_ok(acc: Vec3, spp: int, sky: bool) -> bool {
    &&& 0 <= acc.x <= spp * SCALE
    &&& 0 <= acc.y <= spp * SCALE
    &&& 0 <= acc.z <= spp * SCALE
    &&& sky ==> spp * SKY_R <= acc.x && spp * SKY_G <= acc.y && acc.z == spp * SCALE
}

/// Pixel `px` of a byte buffer is the gamma-2 tone map of an accumulation
/// inside the sampling envelope; a sky-only pixel has a saturated blue byte.
pub open spec fn pixel_tonemapped(bytes: Seq<u8>, px: int, spp: int, sky: bool) -> bool {
    exists|acc: Vec3|
        #[trigger] acc_ok(acc, spp, sky) && bytes[3 * px] == spec_tonemap(acc.x as int, spp)
            && bytes[3 * px + 1] == spec_tonemap(acc.y as int, spp) && bytes[3 * px + 2]
            == spec_tonemap(acc.z as int, spp) && (sky ==> bytes[3 * px + 2] == 255)
}

/// A tone-mapped pixel carries over to any buffer holding the same three
/// bytes at another pixel position.
proof fn lemma_pixel_carry(src: Seq<u8>, ps: int, dst: Seq<u8>, pd: int, spp: int, sky: bool)
    requires
        pixel_tonemapped(src, ps, spp, sky),
        dst[3 * pd] == src[3 * ps],
        dst[3 * pd + 1] == src[3 * ps + 1],
        dst[3 * pd + 2] == src[3 * ps + 2],
    ensures
        pixel_tonemapped(dst, pd, spp, sky),
{
    let acc = choose|acc: Vec3|
        #[trigger] acc_ok(acc, spp, sky) && src[3 * ps] == spec_tonemap(acc.x as int, spp)
            && src[3 * ps + 1] == spec_tonemap(acc.y as int, spp) && src[3 * ps + 2]
            == spec_tonemap(acc.z as int, spp) && (sky ==> src[3 * ps + 2] == 255);
    assert(acc_ok(acc, spp, sky) && dst[3 * pd] == spec_tonemap(acc.x as int, spp) && dst[3 * pd
        + 1] == spec_tonemap(acc.y as int, spp) && dst[3 * pd + 2] == spec_tonemap(
        acc.z as int,
        spp,
    ) && (sky ==> dst[3 * pd + 2] == 255));
}

pub fn sample_pixel(
    samples_per_pixel: usize,
    x: usize,
    y: usize,
    image_width: usize,
    image_height: usize,
    max_depth: i64,
    camera: &Camera,
    world: &Hittables,
) -> (acc: Vec3)
    requires
        camera_wf(*camera),
        hittables_wf(*world),
        2 <= image_width <= 0x10000,
        2 <= image_height <= 0x10000,
        x < image_width,
        y < image_height,
        1 <= samples_per_pixel <= 0x10000,
    ensures
        acc_ok(acc, samples_per_pixel as int, sky_only(*world, max_depth as int)),
{
    let ghost sky = sky_only(*world, max_depth as int);
    let mut acc = Vec3 { x: 0, y: 0, z: 0 };
    let mut s: usize = 0;
    while s < samples_per_pixel
        invariant
            s <= samples_per_pixel,
            samples_per_pixel <= 0x10000,
            camera_wf(*camera),
            hittables_wf(*world),
            2 <= image_width <= 0x10000,
            2 <= image_height <= 0x10000,
            x < image_width,
            y < image_height,
            sky == sky_only(*world, max_depth as int),
            0 <= acc.x <= s * SCALE,
            0 <= acc.y <= s * SCALE,
            0 <= acc.z <= s * SCALE,
            sky ==> s * SKY_R <= acc.x && s * SKY_G <= acc.y && acc.z == s * SCALE,
        decreases samples_per_pixel - s,
    {
        let ru = crate::rng::random_fx();
        let rv = crate::rng::random_fx();
        let un = ((x as i64) * SCALE + ru) / (image_width as i64 - 1);
        let vn = (((image_height as i64) - ((y as i64) + 1)) * SCALE + rv) / (image_height
            as i64 - 1);
        proof {
            vstd::arithmetic::div_mod::lemma_div_pos_is_pos(
                (x as i64) * SCALE + ru,
                image_width as int - 1,
            );
            lemma_frac_bounded(x as int, ru as int, image_width as int);
            vstd::arithmetic::div_mod::lemma_div_pos_is_pos(
                ((image_height as i64) - ((y as i64) + 1)) * SCALE + rv,
                image_height as int - 1,
            );
            lemma_frac_bounded(
                image_height as int - y - 1,
                rv as int,
                image_height as int,
            );
        }
        let ray = camera.get_ray(un, vn);
        let c = ray_color(&ray, world, max_depth);
        proof {
            if sky {
                assert(!spec_hits_something(*world, ray)) by {
                    if spec_hits_something(*world, ray) {
                        let i = choose|i: int|
                            0 <= i < world.prims@.len() && (#[trigger] prim_hit_t(
                                world.prims@[i],
                                ray,
                                T_NEAR as int,
                                T_FAR as int,
                            )) is Some;
                    }
                }
                lemma_sky_bounds(ray);
            }
        }
        acc = Vec3 { x: acc.x + c.x, y: acc.y + c.y, z: acc.z + c.z };
        s += 1;
    }
    acc
}

/// A jittered pixel fraction stays within `[0, 2]`.
proof fn lemma_frac_bounded(x: int, r: int, w: int)
    requires
        0 <= x <= w - 1,
        0 <= r < SCALE,
        2 <= w <= 0x10000,
    ensures
        0 <= (x * SCALE + r) / (w - 1) <= 2 * SCALE,
{
    assert(x * SCALE + r <= (w - 1) * (2 * SCALE)) by (nonlinear_arith)
        requires
            0 <= x <= w - 1,
            0 <= r < SCALE,
            w >= 2,
            SCALE == 65536,
    ;
    vstd::arithmetic::div_mod::lemma_div_pos_is_pos(x * SCALE + r, w - 1);
    vstd::arithmetic::div_mod::lemma_div_is_ordered(x * SCALE + r, (w - 1) * (2 * SCALE), w - 1);
    vstd::arithmetic::div_mod::lemma_div_multiples_vanish(2 * SCALE as int, w - 1);
    assert((w - 1) * (2 * SCALE) == (w - 1) * (2 * SCALE as int)) by (nonlinear_arith);
}

/// Render one scan line: `3 * image_width` bytes, left to right.
pub fn render_row(
    y: usize,
    image_width: usize,
    image_height: usize,
    samples_per_pixel: usize,
    max_depth: i64,
    camera: &Camera,
    world: &Hittables,
) -> (row: Vec<u8>)
    requires
        camera_wf(*camera),
        hittables_wf(*world),
        2 <= image_width <= 0x10000,
        2 <= image_height <= 0x10000,
        y < image_height,
        1 <= samples_per_pixel <= 0x10000,
    ensures
        row@.len() == 3 * image_width,
        forall|px: int|
            0 <= px < image_width ==> pixel_tonemapped(
                row@,
                px,
                samples_per_pixel as int,
                sky_only(*world, max_depth as int),
            ),
{
    let ghost sky = sky_only(*world, max_depth as int);
    let mut row: Vec<u8> = Vec::new();
    let mut x: usize = 0;
    while x < image_width
        invariant
            x <= image_width,
            row@.len() == 3 * x,
            camera_wf(*camera),
            hittables_wf(*world),
            2 <= image_width <= 0x10000,
            2 <= image_height <= 0x10000,
            y < image_height,
            1 <= samples_per_pixel <= 0x10000,
            sky == sky_only(*world, max_depth as int),
            forall|px: int|
                0 <= px < x ==> pixel_tonemapped(row@, px, samples_per_pixel as int, sky),
        decreases image_width - x,
    {
        let acc = sample_pixel(
            samples_per_pixel,
            x,
            y,
            image_width,
            image_height,
            max_depth,
            camera,
            world,
        );
        proof {
            assert(samples_per_pixel * SCALE <= 0x10000 * 65536) by (nonlinear_arith)
                requires
                    samples_per_pixel <= 0x10000,
                    SCALE == 65536,
            ;
        }
        let bytes = acc.to_rgb(samples_per_pixel);
        let ghost old_row = row@;
        row.push(bytes[0]);
        row.push(bytes[1]);
        row.push(bytes[2]);
        proof {
            let spp = samples_per_pixel as int;
            if sky {
                lemma_tonemap_ends(spp);
            }
            assert(acc_ok(acc, spp, sky) && row@[3 * (x as int)] == spec_tonemap(
                acc.x as int,
                spp,
            ) && row@[3 * (x as int) + 1] == spec_tonemap(acc.y as int, spp) && row@[3 * (
            x as int) + 2] == spec_tonemap(acc.z as int, spp) && (sky ==> row@[3 * (x as int) + 2]
                == 255));
            assert forall|px: int| 0 <= px < x + 1 implies pixel_tonemapped(
                row@,
                px,
                spp,
                sky,
            ) by {
                if px < x {
                    lemma_pixel_carry(old_row, px, row@, px, spp, sky);
                }
            }
        }
        x += 1;
    }
    row
}

/// Render the full image single-threaded: rows from the top, each row
/// `3 * image_width` bytes, concatenated in row-major order.
pub fn create_image(
    image_width: usize,
    image_height: usize,
    samples_per_pixel: usize,
    max_depth: i64,
    camera: &Camera,
    world: &Hittables,
) -> (img: Vec<u8>)
    requires
        camera_wf(*camera),
        hittables_wf(*world),
        2 <= image_width <= 0x10000,
        2 <= image_height <= 0x10000,
        1 <= samples_per_pixel <= 0x10000,
    ensures
        img@.len() == 3 * image_width * image_height,
        forall|px: int|
            0 <= px < image_width * image_height ==> pixel_tonemapped(
                img@,
                px,
                samples_per_pixel as int,
                sky_only(*world, max_depth as int),
            ),
{
    let ghost sky = sky_only(*world, max_depth as int);
    let mut img: Vec<u8> = Vec::new();
    let mut y: usize = 0;
    proof {
        assert(3 * image_width * image_height <= 0x30000000000) by (nonlinear_arith)
            requires
                image_width <= 0x10000,
                image_height <= 0x10000,
        ;
    }
    while y < image_height
        invariant
            y <= image_height,
            img@.len() == 3 * image_width * y,
            camera_wf(*camera),
            hittables_wf(*world),
            2 <= image_width <= 0x10000,
            2 <= image_height <= 0x10000,
            1 <= samples_per_pixel <= 0x10000,
            sky == sky_only(*world, max_depth as int),
            forall|px: int|
                0 <= px < image_width * y ==> pixel_tonemapped(
                    img@,
                    px,
                    samples_per_pixel as int,
                    sky,
                ),
        decreases image_height - y,
    {
        let mut row = render_row(
            y,
            image_width,
            image_height,
            samples_per_pixel,
            max_depth,
            camera,
            world,
        );
        let mut i: usize = 0;
        let ghost img0 = img@;
        proof {
            assert(3 * image_width * (y + 1) == 3 * image_width * y + 3 * image_width)
                by (nonlinear_arith);
            assert(3 * image_width * y >= 0 && 3 * image_width * (y as int + 1) <= 0x30000000000)
                by (nonlinear_arith)
                requires
                    image_width <= 0x10000,
                    y < image_height <= 0x10000,
            ;
        }
        while i < row.len()
            invariant
                i <= row@.len(),
                row@.len() == 3 * image_width,
                img@.len() == 3 * image_width * y + i,
                3 * image_width * y + 3 * image_width <= 0x30000000000,
                img0.len() == 3 * image_width * y,
                img@ == img0 + row@.subrange(0, i as int),
            decreases row@.len() - i,
        {
            img.push(row[i]);
            proof {
                assert(img@ =~= img0 + row@.subrange(0, i as int + 1));
            }
            i += 1;
        }
        proof {
            assert(img@ =~= img0 + row@);
            let spp = samples_per_pixel as int;
            let base = image_width as int * y as int;
            vstd::arithmetic::mul::lemma_mul_is_distributive_add(image_width as int, y as int, 1);
            vstd::arithmetic::mul::lemma_mul_basics_3(image_width as int);
            assert(image_width * (y as int + 1) == base + image_width);
            assert forall|px: int| 0 <= px < image_width * (y as int + 1) implies pixel_tonemapped(
                img@,
                px,
                spp,
                sky,
            ) by {
                if px < image_width * y {
                    assert(3 * px + 2 < img0.len()) by (nonlinear_arith)
                        requires
                            0 <= px < image_width as int * y as int,
                            img0.len() == 3 * image_width * y,
                    ;
                    lemma_pixel_carry(img0, px, img@, px, spp, sky);
                } else {
                    let xx = px - base;
                    assert(image_width * y == base);
                    assert(0 <= xx < image_width);
                    assert(pixel_tonemapped(row@, xx, spp, sky));
                    assert(3 * px == img0.len() + 3 * xx && 3 * px + 2 < img@.len())
                        by (nonlinear_arith)
                        requires
                            px == base + xx,
                            base == image_width as int * y as int,
                            img0.len() == 3 * image_width * y,
                            img@.len() == img0.len() + 3 * image_width,
                            0 <= xx < image_width,
                    ;
                    assert(img@[3 * px] == row@[3 * xx] && img@[3 * px + 1] == row@[3 * xx + 1]
                        && img@[3 * px + 2] == row@[3 * xx + 2]);
                    lemma_pixel_carry(row@, xx, img@, px, spp, sky);
                }
            }
        }
        y += 1;
    }
    proof {
        assert(image_width * image_height >= 0) by (nonlinear_arith)
            requires
                image_width >= 0,
                image_height >= 0,
        ;
    }
    img
}

/// The list of scan lines, the unit of parallel work: each row index once,
/// in order.
pub fn create_work_list(image_height: usize) -> (rows: Vec<usize>)
    ensures
        rows@.len() == image_height,
        forall|k: int| 0 <= k < image_height ==> #[trigger] rows@[k] == k,
{
    let mut rows: Vec<usize> = Vec::new();
    let mut y: usize = 0;
    while y < image_height
        invariant
            y <= image_height,
            rows@.len() == y,
            forall|k: int| 0 <= k < y ==> #[trigger] rows@[k] == k,
        decreases image_height - y,
    {
        rows.push(y);
        y += 1;
    }
    rows
}


/// The character for one decimal digit.
pub open spec fn digit_char(d: int) -> char {
    if d == 0 {
        '0'
    } else if d == 1 {
        '1'
    } else if d == 2 {
        '2'
    } else if d == 3 {
        '3'
    } else if d == 4 {
        '4'
    } else if d == 5 {
        '5'
    } else if d == 6 {
        '6'
    } else if d == 7 {
        '7'
    } else if d == 8 {
        '8'
    } else {
        '9'
    }
}

/// The decimal spelling of a byte value, without leading zeros.
pub open spec fn dec_chars(n: int) -> Seq<char> {
    if n < 10 {
        seq![digit_char(n)]
    } else if n < 100 {
        seq![digit_char(n / 10), digit_char(n % 10)]
    } else {
        seq![digit_char(n / 100), digit_char((n / 10) % 10), digit_char(n % 10)]
    }
}

/// The "r g b" spelling of three byte values.
pub open spec fn rgb_chars(r: int, g: int, b: int) -> Seq<char> {
    dec_chars(r) + seq![' '] + dec_chars(g) + seq![' '] + dec_chars(b)
}

/// One decimal digit as a string slice.
fn digit_str(d: u8) -> (r: &'static str)
    requires
        d < 10,
    ensures
        r@ == seq![digit_char(d as int)],
{
    proof {
        reveal_strlit("0");
        reveal_strlit("1");
        reveal_strlit("2");
        reveal_strlit("3");
        reveal_strlit("4");
        reveal_strlit("5");
        reveal_strlit("6");
        reveal_strlit("7");
        reveal_strlit("8");
        reveal_strlit("9");
    }
    if d == 0 {
        "0"
    } else if d == 1 {
        "1"
    } else if d == 2 {
        "2"
    } else if d == 3 {
        "3"
    } else if d == 4 {
        "4"
    } else if d == 5 {
        "5"
    } else if d == 6 {
        "6"
    } else if d == 7 {
        "7"
    } else if d == 8 {
        "8"
    } else {
        "9"
    }
}

/// Append the decimal spelling of a byte.
fn push_dec(s: &mut String, n: u8)
    ensures
        final(s)@ == old(s)@ + dec_chars(n as int),
{
    if n >= 100 {
        s.append(digit_str(n / 100));
        s.append(digit_str((n / 10) % 10));
        s.append(digit_str(n % 10));
        proof {
            assert(final(s)@ =~= old(s)@ + dec_chars(n as int));
        }
    } else if n >= 10 {
        s.append(digit_str(n / 10));
        s.append(digit_str(n % 10));
        proof {
            assert(final(s)@ =~= old(s)@ + dec_chars(n as int));
        }
    } else {
        s.append(digit_str(n));
        proof {
            assert(final(s)@ =~= old(s)@ + dec_chars(n as int));
        }
    }
}

impl Vec3 {
    /// The tone-mapped colour as the text "r g b".
    pub fn to_string(self, samples_per_pixel: usize) -> (out: String)
        requires
            samples_per_pixel >= 1,
            self.x <= 0x400000000000,
            self.y <= 0x400000000000,
            self.z <= 0x400000000000,
        ensures
            out@ == rgb_chars(
                spec_tonemap(self.x as int, samples_per_pixel as int),
                spec_tonemap(self.y as int, samples_per_pixel as int),
                spec_tonemap(self.z as int, samples_per_pixel as int),
            ),
    {
        proof {
            reveal_strlit(" ");
        }
        let r = tonemap_channel(self.x, samples_per_pixel);
        let g = tonemap_channel(self.y, samples_per_pixel);
        let b = tonemap_channel(self.z, samples_per_pixel);
        let mut out = String::new();
        push_dec(&mut out, r);
        out.append(" ");
        push_dec(&mut out, g);
        out.append(" ");
        push_dec(&mut out, b);
        proof {
            assert(out@ =~= rgb_chars(
                spec_tonemap(self.x as int, samples_per_pixel as int),
                spec_tonemap(self.y as int, samples_per_pixel as int),
                spec_tonemap(self.z as int, samples_per_pixel as int),
            ));
        }
        out
    }
}

} // verus!

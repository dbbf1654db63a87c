//! Random sampling: one trusted draw, and the rejection samplers built on it.

use vstd::prelude::*;
use crate::math::SCALE;
use crate::vec3::{Vec3, dot3, in_range};

verus! {

/// Relies on rand::random_range (the thread-local generator): a draw in
/// `[lo, hi)`.  It panics only on an empty range, which the precondition
/// rules out.  Nothing about the value beyond its range is assumed.
#[verifier::external_body]
fn rand_in(lo: i64, hi: i64) -> (r: i64)
    requires
        lo < hi,
    ensures
        lo <= r < hi,
{
    rand::random_range(lo..hi)
}

/// A fixed-point sample in `[0, 1)`.
pub fn random_fx() -> (r: i64)
    ensures
        0 <= r < SCALE,
{
    rand_in(0, SCALE)
}

/// A fixed-point sample in `[min, max)` (or `min` itself if the range is
/// empty).
pub fn random_range_fx(min: i64, max: i64) -> (r: i64)
    requires
        -0x40000000 <= min <= 0x40000000,
        -0x40000000 <= max <= 0x40000000,
    ensures
        min <= max ==> min <= r <= max,
        min > max ==> r == min,
{
    if min < max {
        rand_in(min, max)
    } else {
        min
    }
}

/// A vector with three independent samples in `[min, max)`.
pub fn random_vec3(min: i64, max: i64) -> (v: Vec3)
    requires
        -0x40000000 <= min <= 0x40000000,
        -0x40000000 <= max <= 0x40000000,
        min <= max,
    ensures
        min <= v.x <= max,
        min <= v.y <= max,
        min <= v.z <= max,
{
    Vec3 { x: random_range_fx(min, max), y: random_range_fx(min, max), z: random_range_fx(min, max) }
}

/// Rejection-sample a vector inside the open unit ball.  After a bounded
/// number of failed draws the sample falls back to a fixed interior point.
pub fn random_unit_vec3() -> (v: Vec3)
    ensures
        in_range(v, SCALE as int),
        dot3(v, v) < SCALE as int * SCALE as int,
{
    let mut tries: usize = 0;
    while tries < 64
        invariant
            tries <= 64,
        decreases 64 - tries,
    {
        let p = random_vec3(-SCALE, SCALE);
        let sq = p.length_squared();
        if sq < SCALE * SCALE {
            return p;
        }
        tries += 1;
    }
    proof {
        assert((32768int) * (32768int) < (65536int) * (65536int)) by (nonlinear_arith);
    }
    Vec3 { x: 32768, y: 0, z: 0 }
}

/// Rejection-sample a point in the open unit disk of the xy plane.
pub fn random_in_unit_disk() -> (v: Vec3)
    ensures
        in_range(v, SCALE as int),
        dot3(v, v) < SCALE as int * SCALE as int,
        v.z == 0,
{
    let mut tries: usize = 0;
    while tries < 64
        invariant
            tries <= 64,
        decreases 64 - tries,
    {
        let p = Vec3 { x: random_range_fx(-SCALE, SCALE), y: random_range_fx(-SCALE, SCALE), z: 0 };
        let sq = p.length_squared();
        if sq < SCALE * SCALE {
            return p;
        }
        tries += 1;
    }
    proof {
        assert((32768int) * (32768int) < (65536int) * (65536int)) by (nonlinear_arith);
    }
    Vec3 { x: 32768, y: 0, z: 0 }
}

} // verus!

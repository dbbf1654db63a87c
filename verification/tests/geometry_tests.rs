//! Geometry-level tests: vectors, boxes, primitives and the octree.

use raytrace_rs::vec3::Vec3;
use raytrace_rs::ray::Ray;
use raytrace_rs::aabb::AABB;
use raytrace_rs::material::{clamp_fx, reflect, Material};
use raytrace_rs::sphere::Sphere;
use raytrace_rs::triangle::Triangle;
use raytrace_rs::prim::HittableObject;
use raytrace_rs::scene::Hittables;

const S: i64 = 65536;

fn fx(v: f64) -> i64 {
    (v * 65536.0).round() as i64
}

#[test]
fn test_clamp() {
    assert_eq!(clamp_fx(fx(1.5), fx(0.0), fx(1.0)), fx(1.0));
    assert_eq!(clamp_fx(fx(0.5), fx(0.0), fx(1.0)), fx(0.5));
    assert_eq!(clamp_fx(fx(-1.5), fx(0.0), fx(1.0)), fx(0.0));
}

#[test]
fn test_getters() {
    let mut v = Vec3::new(fx(1.0), fx(2.0), fx(3.0));
    assert_eq!(v.x(), fx(1.0));
    assert_eq!(v.y(), fx(2.0));
    assert_eq!(v.z(), fx(3.0));
    assert_eq!(v.get_idx(0), fx(1.0));
    assert_eq!(v.get_idx(2), fx(3.0));
    v.set_idx(1, fx(7.0));
    assert_eq!(v.y(), fx(7.0));
    let w = Vec3::new(fx(1.0), fx(1.0), fx(1.0));
    let rgb = w.to_rgb(1);
    assert_eq!(rgb, vec![255, 255, 255]);
    assert_eq!(w.to_string(1), String::from("255 255 255"));
}

#[test]
fn test_math() {
    let v = Vec3::new(fx(1.0), fx(1.0), fx(1.0));
    let f = fx(0.5);
    assert_eq!(v.scale(f), Vec3::new(fx(0.5), fx(0.5), fx(0.5)));
    assert_eq!(v.neg(), Vec3::new(fx(-1.0), fx(-1.0), fx(-1.0)));
    assert_eq!(v.add(&v), Vec3::new(fx(2.0), fx(2.0), fx(2.0)));
    assert_eq!(v.sub(&v), Vec3::new(fx(0.0), fx(0.0), fx(0.0)));
    assert_eq!(v.dot(&v), 3 * S * S);
}

/// A slab test hit from outside the box, and a miss pointing away.
#[test]
fn aabb_hit_basics() {
    let b = AABB::new(Vec3::new(-S, -S, -S), Vec3::new(S, S, S));
    let toward = Ray::new(Vec3::new(0, 0, -5 * S), Vec3::new(0, 0, S));
    let away = Ray::new(Vec3::new(0, 0, -5 * S), Vec3::new(0, 0, -S));
    let sideways = Ray::new(Vec3::new(0, 0, -5 * S), Vec3::new(S, 0, 0));
    assert!(b.hit(&toward, 0, i64::MAX));
    assert!(!b.hit(&away, 0, i64::MAX));
    assert!(!b.hit(&sideways, 0, i64::MAX));
    // window too short to reach the box
    assert!(!b.hit(&toward, 0, 2 * S));
    // parallel ray inside the slab on that axis
    let inside = Ray::new(Vec3::new(0, 0, 0), Vec3::new(S, 0, 0));
    assert!(b.hit(&inside, 0, i64::MAX));
}

#[test]
fn aabb_overlaps_basics() {
    let a = AABB::new(Vec3::new(0, 0, 0), Vec3::new(S, S, S));
    let b = AABB::new(Vec3::new(S / 2, S / 2, S / 2), Vec3::new(2 * S, 2 * S, 2 * S));
    let c = AABB::new(Vec3::new(3 * S, 0, 0), Vec3::new(4 * S, S, S));
    assert!(a.overlaps(&b));
    assert!(b.overlaps(&a));
    assert!(!a.overlaps(&c));
}

/// A unit sphere at the origin, hit by a ray from (0,0,-5) toward +z:
/// the hit parameter is exactly 4 and the normal exactly (0,0,-1).
#[test]
fn sphere_axis_hit() {
    let sph = Sphere::new(Vec3::new(0, 0, 0), S, Material::Mirror);
    let ray = Ray::new(Vec3::new(0, 0, -5 * S), Vec3::new(0, 0, S));
    // the sphere box keeps the 0.001 bias from the data model
    let sb = sph.get_aabb();
    assert_eq!(sb.min, Vec3::new(-S - 65, -S - 65, -S - 65));
    let rec = sph.hit(&ray, 65, i64::MAX).expect("ray must hit the sphere");
    assert_eq!(rec.t, 4 * S);
    assert_eq!(rec.normal, Vec3::new(0, 0, -S));
    assert!(rec.front_face);
    // the oriented normal opposes the ray direction
    let d = ray.direction();
    let dot = d.x() as i128 * rec.normal.x() as i128 + d.y() as i128 * rec.normal.y() as i128
        + d.z() as i128 * rec.normal.z() as i128;
    assert!(dot < 0);
    // the normal is unit length, exactly in this configuration
    let n = rec.normal;
    let len2 = n.x() as i128 * n.x() as i128 + n.y() as i128 * n.y() as i128 + n.z() as i128
        * n.z() as i128;
    assert_eq!(len2, (S as i128) * (S as i128));
}

/// A back-face-culled triangle misses from behind and hits from the front.
#[test]
fn triangle_backface_cull() {
    let t = Triangle::new(
        Vec3::new(-S, -S, 0),
        Vec3::new(S, -S, 0),
        Vec3::new(0, S, 0),
        Material::Mirror,
        true,
    );
    // the bounding box is the exact vertex extent
    let bb = t.get_aabb();
    assert_eq!(bb.min, Vec3::new(-S, -S, 0));
    assert_eq!(bb.max, Vec3::new(S, S, 0));
    let back = Ray::new(Vec3::new(0, 0, -5 * S), Vec3::new(0, 0, S));
    let front = Ray::new(Vec3::new(0, 0, 5 * S), Vec3::new(0, 0, -S));
    assert!(t.hit(&back, 65, i64::MAX).is_none());
    let rec = t.hit(&front, 65, i64::MAX).expect("front face must hit");
    assert_eq!(rec.t, 5 * S);
    // without culling the back side hits too
    let t2 = Triangle::new(
        Vec3::new(-S, -S, 0),
        Vec3::new(S, -S, 0),
        Vec3::new(0, S, 0),
        Material::Mirror,
        false,
    );
    let rec2 = t2.hit(&back, 65, i64::MAX).expect("uncull-ed back face must hit");
    assert_eq!(rec2.t, 5 * S);
}

/// Reflecting twice across the same exactly-unit plane normal returns the
/// original direction bit for bit.
#[test]
fn reflect_round_trip() {
    let n = Vec3::new(0, 0, S);
    let cases = [
        Vec3::new(12345, -777, 30000),
        Vec3::new(-50000, 2, 65536),
        Vec3::new(0, 40000, -20000),
    ];
    for v in cases {
        let once = reflect(v, n);
        let twice = reflect(once, n);
        assert_eq!(twice, v);
        assert_eq!(once.z(), -v.z());
        assert_eq!(once.x(), v.x());
    }
}

fn xorshift(state: &mut u64) -> u64 {
    let mut x = *state;
    x ^= x << 13;
    x ^= x >> 7;
    x ^= x << 17;
    *state = x;
    x
}

fn rnd_in(state: &mut u64, lo: i64, hi: i64) -> i64 {
    lo + (xorshift(state) % ((hi - lo) as u64)) as i64
}

/// Octree containment and equivalence: many random spheres in a cube; the
/// octree query agrees exactly with brute force for random exterior rays.
#[test]
fn octree_containment_and_equivalence() {
    let mut st: u64 = 0x1234_5678_9abc_def1;
    let mut prims = Vec::new();
    for _ in 0..1024 {
        let c = Vec3::new(
            rnd_in(&mut st, -5 * S, 5 * S),
            rnd_in(&mut st, -5 * S, 5 * S),
            rnd_in(&mut st, -5 * S, 5 * S),
        );
        let r = rnd_in(&mut st, 100, S / 2);
        prims.push(HittableObject::SphereObj(Sphere::new(c, r, Material::Mirror)));
    }
    let world = Hittables::new(vec![], prims);
    for _ in 0..2000 {
        let o = Vec3::new(
            rnd_in(&mut st, -20 * S, -10 * S),
            rnd_in(&mut st, -20 * S, 20 * S),
            rnd_in(&mut st, -20 * S, 20 * S),
        );
        let d = Vec3::new(
            rnd_in(&mut st, S / 2, 2 * S),
            rnd_in(&mut st, -S, S),
            rnd_in(&mut st, -S, S),
        );
        let ray = Ray::new(o, d);
        let via_tree = world.hit(&ray, 65, i64::MAX);
        let via_scan = world.brute_force_hit(&ray, 65, i64::MAX);
        match (via_tree, via_scan) {
            (None, None) => {},
            (Some(a), Some(b)) => assert_eq!(a.t, b.t),
            _ => panic!("octree and brute force disagree on whether the ray hits"),
        }
    }
}

/// The `occluded` view of the scene agrees with the nearest-hit query.
#[test]
fn occlusion_matches_hit() {
    let sph = Sphere::new(Vec3::new(0, 0, -3 * S), S, Material::Mirror);
    let world = Hittables::new(vec![], vec![HittableObject::SphereObj(sph)]);
    let toward = Ray::new(Vec3::new(0, 0, 0), Vec3::new(0, 0, -S));
    let away = Ray::new(Vec3::new(0, 0, 0), Vec3::new(0, 0, S));
    assert!(world.occluded(&toward, 65, i64::MAX));
    assert!(!world.occluded(&away, 65, i64::MAX));
    assert!(world.hit(&toward, 65, i64::MAX).is_some());
    assert_eq!(world.hit(&toward, 65, i64::MAX).unwrap().t, 2 * S);
}

/// Random samples respect their contracted bounds and actually vary
/// (a generator that returned a constant would fail this).
#[test]
fn random_sampling_bounds() {
    let mut seen_distinct = false;
    let mut first: Option<Vec3> = None;
    for _ in 0..200 {
        let v = raytrace_rs::rng::random_unit_vec3();
        let len2 = v.x() as i128 * v.x() as i128 + v.y() as i128 * v.y() as i128 + v.z() as i128
            * v.z() as i128;
        assert!(len2 < (S as i128) * (S as i128));
        match first {
            None => first = Some(v),
            Some(f) => {
                if f != v {
                    seen_distinct = true;
                }
            },
        }
        let d = raytrace_rs::rng::random_in_unit_disk();
        assert_eq!(d.z(), 0);
        let dl = d.x() as i128 * d.x() as i128 + d.y() as i128 * d.y() as i128;
        assert!(dl < (S as i128) * (S as i128));
        let f = raytrace_rs::rng::random_fx();
        assert!((0..S).contains(&f));
    }
    assert!(seen_distinct, "unit-ball samples never varied");
}

//! Renderer-level tests: tone map, integrator, full images and the
//! parallel row schedule.

use raytrace_rs::vec3::Vec3;
use raytrace_rs::ray::Ray;
use raytrace_rs::material::Material;
use raytrace_rs::sphere::Sphere;
use raytrace_rs::triangle::Triangle;
use raytrace_rs::prim::HittableObject;
use raytrace_rs::scene::Hittables;
use raytrace_rs::camera::Camera;
use raytrace_rs::render::{create_image, create_work_list, ray_color, render_row, tonemap_channel};

use rayon::iter::{IntoParallelRefIterator, ParallelIterator};

const S: i64 = 65536;

fn fx(v: f64) -> i64 {
    (v * 65536.0).round() as i64
}

fn v3(x: f64, y: f64, z: f64) -> Vec3 {
    Vec3::new(fx(x), fx(y), fx(z))
}

/// Tone map endpoints: zero to zero, a full or over-bright channel to 255.
#[test]
fn tonemap_endpoints() {
    assert_eq!(tonemap_channel(0, 1), 0);
    assert_eq!(tonemap_channel(S, 1), 255);
    assert_eq!(tonemap_channel(100 * S, 1), 255);
    assert_eq!(tonemap_channel(10 * S, 10), 255);
    assert_eq!(tonemap_channel(-5, 7), 0);
}

/// Tone map monotonicity per channel.
#[test]
fn tonemap_monotone() {
    let mut prev = 0u8;
    let mut c: i64 = 0;
    while c <= S {
        let here = tonemap_channel(c, 1);
        assert!(here >= prev);
        prev = here;
        c += 997;
    }
    // a quarter-intensity channel maps near 256 * 0.5
    let half = tonemap_channel(S / 4, 1);
    assert!((126..=128).contains(&half));
}

fn cam_default(aspect: f64) -> Camera {
    Camera::new(
        v3(0.0, 0.0, 0.0),
        v3(0.0, 0.0, -1.0),
        v3(0.0, 1.0, 0.0),
        fx(1.0),  // tan(90 deg / 2)
        fx(aspect),
        0,
        fx(1.0),
    )
}

/// An empty scene is pure sky: the blue channel saturates everywhere, and
/// the top-row pixel is brighter in blue than red as the gradient says.
#[test]
fn empty_scene_sky() {
    let world = Hittables::new(vec![], vec![]);
    let cam = cam_default(1.0);
    let img = create_image(10, 10, 1, 25, &cam, &world);
    assert_eq!(img.len(), 300);
    // pixel 0 of the top row
    let (r, g, b) = (img[0], img[1], img[2]);
    assert_eq!(b, 255);
    assert!(r < g && g < b);
    // the sky-gradient formula at the top of the view is close to
    // (0.68, 0.8, 1.0) after the gamma-2 map: allow the viewport slack
    assert!((180..=240).contains(&r));
    assert!((200..=250).contains(&g));
    // every pixel of the sky has a saturated blue channel
    for p in 0..100 {
        assert_eq!(img[3 * p + 2], 255);
    }
}

/// A mirror sphere ahead of the camera shows the sky, not blackness, in
/// the central pixel.
#[test]
fn mirror_sphere_reflects_sky() {
    let sph = Sphere::new(v3(0.0, 0.0, -2.0), fx(1.0), Material::Mirror);
    let world = Hittables::new(
        vec![v3(0.0, 0.0, 3.0)],
        vec![HittableObject::SphereObj(sph)],
    );
    let cam = cam_default(1.0);
    let img = create_image(21, 21, 4, 8, &cam, &world);
    let center = 3 * (21 * 10 + 10);
    let (r, g, b) = (img[center], img[center + 1], img[center + 2]);
    assert!(r as u32 + g as u32 + b as u32 > 120, "central pixel is black: {r} {g} {b}");
}

/// With depth 1 the integrator never recurses: a hit on a mirror-only
/// scene comes back black, and depth 0 is black outright.
#[test]
fn depth_bound_stops_recursion() {
    let sph = Sphere::new(v3(0.0, 0.0, -2.0), fx(1.0), Material::Mirror);
    let world = Hittables::new(vec![], vec![HittableObject::SphereObj(sph)]);
    let hit_ray = Ray::new(v3(0.0, 0.0, 0.0), v3(0.0, 0.0, -1.0));
    assert_eq!(ray_color(&hit_ray, &world, 1), Vec3::new(0, 0, 0));
    assert_eq!(ray_color(&hit_ray, &world, 0), Vec3::new(0, 0, 0));
    assert_eq!(ray_color(&hit_ray, &world, -3), Vec3::new(0, 0, 0));
    // with one more bounce the mirror shows the sky instead
    let two = ray_color(&hit_ray, &world, 2);
    assert!(two.x() + two.y() + two.z() > 0);
}

/// The work list enumerates each row exactly once, in order.
#[test]
fn work_list_rows() {
    let rows = create_work_list(7);
    assert_eq!(rows, vec![0, 1, 2, 3, 4, 5, 6]);
}

fn similarity(a: &[u8], b: &[u8]) -> f64 {
    assert_eq!(a.len(), b.len());
    let mut total = 0.0f64;
    for i in 0..a.len() {
        total += (255.0 - (a[i] as f64 - b[i] as f64).abs()) / 255.0;
    }
    total / a.len() as f64
}

fn demo_scene() -> (Hittables, Camera) {
    let objects = vec![
        HittableObject::SphereObj(Sphere::new(
            v3(0.6, 0.0, -1.5),
            fx(0.5),
            Material::Metal(v3(0.7, 0.6, 0.2), fx(0.3)),
        )),
        HittableObject::SphereObj(Sphere::new(v3(-0.9, -1.0, -1.2), fx(0.5), Material::Mirror)),
        HittableObject::SphereObj(Sphere::new(
            v3(0.7, 0.8, -1.2),
            fx(0.5),
            Material::Dielectric(fx(0.8)),
        )),
        HittableObject::SphereObj(Sphere::new(
            v3(-0.7, 0.8, -1.2),
            fx(0.5),
            Material::Lambertian(v3(0.9, 0.0, 0.8)),
        )),
    ];
    let world = Hittables::new(vec![v3(-1.0, 1.5, -3.5)], objects);
    let cam = Camera::new(
        v3(0.0, 0.0, -3.5),
        v3(0.0, 0.0, 0.0),
        v3(0.0, 1.0, 0.0),
        fx(1.0),
        fx(1.7751479289940828),
        fx(0.01),
        fx(3.5),
    );
    (world, cam)
}

/// A parallel render over the row list agrees statistically with the
/// sequential render of the same scene (independent randomness).
#[test]
fn parallel_rows_match_sequential() {
    let (world, cam) = demo_scene();
    let (w, h, spp, depth) = (40usize, 30usize, 6usize, 6i64);
    let sequential = create_image(w, h, spp, depth, &cam, &world);
    let rows = create_work_list(h);
    let parallel: Vec<Vec<u8>> = rows
        .par_iter()
        .map(|&y| render_row(y, w, h, spp, depth, &cam, &world))
        .collect();
    let mut flat = Vec::new();
    for row in parallel {
        assert_eq!(row.len(), 3 * w);
        flat.extend_from_slice(&row);
    }
    assert_eq!(flat.len(), sequential.len());
    let s = similarity(&flat, &sequential);
    assert!(s > 0.95, "similarity {s} too low");
}

/// The box scene rendered twice with independent randomness: per-pixel
/// similarity stays above 0.95 (four central spheres of the four material
/// kinds, ten coloured wall triangles, one light).
#[test]
fn test_lib() {
    let mut objects = vec![
        HittableObject::SphereObj(Sphere::new(
            v3(0.6, 0.0, -1.5),
            fx(0.5),
            Material::Metal(v3(0.7, 0.6, 0.2), fx(0.3)),
        )),
        HittableObject::SphereObj(Sphere::new(v3(-0.9, -1.0, -1.2), fx(0.5), Material::Mirror)),
        HittableObject::SphereObj(Sphere::new(
            v3(0.7, 0.8, -1.2),
            fx(0.5),
            Material::Dielectric(fx(0.8)),
        )),
        HittableObject::SphereObj(Sphere::new(
            v3(-0.7, 0.8, -1.2),
            fx(0.5),
            Material::Lambertian(v3(0.9, 0.0, 0.8)),
        )),
    ];
    let walls: [([f64; 9], [f64; 3]); 10] = [
        ([2.0, -2.0, 0.0, -2.0, -2.0, 0.0, -2.0, 2.0, 0.0], [0.0, 0.6, 0.0]),
        ([2.0, -2.0, 0.0, -2.0, 2.0, 0.0, 2.0, 2.0, 0.0], [0.0, 0.6, 0.0]),
        ([-2.0, -2.0, 0.0, -2.0, -2.0, -2.0, -2.0, 2.0, -2.0], [0.6, 0.0, 0.0]),
        ([-2.0, -2.0, 0.0, -2.0, 2.0, -2.0, -2.0, 2.0, 0.0], [0.6, 0.0, 0.0]),
        ([2.0, -2.0, -2.0, 2.0, -2.0, 0.0, 2.0, 2.0, 0.0], [0.9, 0.9, 0.0]),
        ([2.0, -2.0, -2.0, 2.0, 2.0, 0.0, 2.0, 2.0, -2.0], [0.9, 0.9, 0.0]),
        ([2.0, 2.0, 0.0, -2.0, 2.0, 0.0, -2.0, 2.0, -2.0], [0.0, 0.0, 0.9]),
        ([2.0, 2.0, 0.0, -2.0, 2.0, -2.0, 2.0, 2.0, -2.0], [0.0, 0.0, 0.9]),
        ([-2.0, -2.0, 0.0, 2.0, -2.0, 0.0, 2.0, -2.0, -2.0], [0.7, 0.0, 0.9]),
        ([-2.0, -2.0, 0.0, 2.0, -2.0, -2.0, -2.0, -2.0, -2.0], [0.7, 0.0, 0.9]),
    ];
    for (pts, col) in walls.iter() {
        objects.push(HittableObject::TriangleObj(Triangle::new(
            v3(pts[0], pts[1], pts[2]),
            v3(pts[3], pts[4], pts[5]),
            v3(pts[6], pts[7], pts[8]),
            Material::Lambertian(v3(col[0], col[1], col[2])),
            true,
        )));
    }
    let world = Hittables::new(vec![v3(-1.0, 1.5, -3.5)], objects);
    let cam = Camera::new(
        v3(0.0, 0.0, -3.5),
        v3(0.0, 0.0, 0.0),
        v3(0.0, 1.0, 0.0),
        fx(1.0),
        fx(1.7751479289940828),
        fx(0.01),
        fx(3.5),
    );
    let (w, h, spp, depth) = (100usize, 67usize, 100usize, 25i64);
    let img1 = create_image(w, h, spp, depth, &cam, &world);
    let img2 = create_image(w, h, spp, depth, &cam, &world);
    assert_eq!(img1.len(), 3 * w * h);
    let simi = similarity(&img1, &img2);
    assert!(simi > 0.95, "similarity {simi} too low");
}

/// A Lambertian floor under a light shows the shadow attenuation: a point
/// under the blocking sphere is darker than an unblocked one.
#[test]
fn shadow_darkens() {
    let floor1 = Triangle::new(
        v3(-10.0, -1.0, 10.0),
        v3(10.0, -1.0, 10.0),
        v3(10.0, -1.0, -10.0),
        Material::Lambertian(v3(0.9, 0.9, 0.9)),
        false,
    );
    let floor2 = Triangle::new(
        v3(-10.0, -1.0, 10.0),
        v3(10.0, -1.0, -10.0),
        v3(-10.0, -1.0, -10.0),
        Material::Lambertian(v3(0.9, 0.9, 0.9)),
        false,
    );
    let blocker = Sphere::new(v3(0.0, 1.0, -3.0), fx(0.8), Material::Lambertian(v3(0.5, 0.5, 0.5)));
    let world = Hittables::new(
        vec![v3(0.0, 5.0, -3.0)],
        vec![
            HittableObject::TriangleObj(floor1),
            HittableObject::TriangleObj(floor2),
            HittableObject::SphereObj(blocker),
        ],
    );
    // accumulate radiance under the sphere and far from it
    let shaded_ray = Ray::new(v3(0.0, 3.0, 0.0), v3(0.0, -4.0, -3.0));
    let lit_ray = Ray::new(v3(6.0, 3.0, 0.0), v3(0.0, -4.0, -3.0));
    let mut shaded = 0i64;
    let mut lit = 0i64;
    for _ in 0..200 {
        let a = ray_color(&shaded_ray, &world, 3);
        let b = ray_color(&lit_ray, &world, 3);
        shaded += a.x() + a.y() + a.z();
        lit += b.x() + b.y() + b.z();
    }
    assert!(shaded < lit, "shadowed point not darker: {shaded} vs {lit}");
}

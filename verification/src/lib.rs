//! A Monte-Carlo path tracer over fixed-point arithmetic.
//!
//! Scene geometry, intersection math, the octree acceleration structure and
//! the integrator all work on Q16.16 fixed-point coordinates, so that every
//! step of the renderer is plain integer arithmetic with proved contracts.
//! Floating-point scene descriptions are converted at the boundary by the
//! embedding program.

pub mod math;
pub mod vec3;
pub mod ray;
pub mod aabb;
pub mod material;
pub mod hit;
pub mod sphere;
pub mod triangle;
pub mod prim;
pub mod octree;
pub mod scene;
pub mod rng;
pub mod camera;
pub mod render;

pub use render::create_image;


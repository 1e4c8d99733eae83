//! The core of a small ray tracer on fixed-point numbers: axis-aligned
//! boxes, a bounding-volume hierarchy built by surface-area binning and the
//! search through it, spheres and triangles, the colour that comes back
//! along a ray by diffuse light, reflection and refraction, and the packing
//! of colours into pixels.
//!
//! Every scalar is an integer that counts ten-thousandths: `SCALE` units make
//! 1.0, and `EPSILON`, the smallest positive scalar, is 0.0001. Coordinates
//! are `i32`, so that space reaches some 214 000 units each way; distances
//! and energies are `i64`.

use vstd::prelude::*;

pub mod bvh;
pub mod camera;
pub mod color;
pub mod fixed;
pub mod lights;
pub mod material;
pub mod primitives;
pub mod ray;
pub mod scene;
pub mod screen;
pub mod trace;
pub mod vector;

pub use bvh::{BVHNode, Bin, AABB, BVH};
pub use camera::Camera;
pub use color::Color;
pub use lights::PointLight;
pub use material::Material;
pub use primitives::{Primitive, Sphere, Triangle};
pub use ray::Ray;
pub use scene::Scene;
pub use screen::Screen;
pub use trace::TraceError;
pub use vector::Vec3;

verus! {

/// Units per 1.0 of every fixed-point scalar.
pub const SCALE: i64 = 10_000;

/// The tolerance below which an extent or a distance counts as nothing.
pub const EPSILON: i64 = 1;

/// How many times a ray is followed on from one surface to the next.
pub const RECURSION_LIMIT: u32 = 16;

} // verus!

//! A bounding volume hierarchy for ray casting over fixed-point geometry: a surface area
//! heuristic builder, exact slab tests, a nearest-hit descent proved equal to a scan of all
//! primitives, and the integer state of a progressive renderer (hashing, frame counting,
//! packed colors and texture buffers).
use vstd::prelude::*;

pub mod aabb;
pub mod bvh;
pub mod color;
pub mod geometry;
pub mod hit;
pub mod pcg;
pub mod ray;
pub mod render;
pub mod scene;
pub mod texture;

verus! {

} // verus!

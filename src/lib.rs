//! Order-exact core of a path tracer: `f32` values carried as ordered integer
//! keys, intervals and axis-aligned boxes over those keys, the bounding-volume
//! hierarchy and its nearest-hit search, the scene's object list with its
//! cached hierarchy, and the integer and order-only decisions of the shapes,
//! textures and pixel sampling.
use vstd::prelude::*;

pub mod aabb;
pub mod bvh;
pub mod interval;
pub mod nearest;
pub mod order;
pub mod quad;
pub mod sampling;
pub mod scene;
pub mod sphere;
pub mod texture;

verus! {

} // verus!

//! The scene-acceleration core of a Monte-Carlo path tracer.
//!
//! Real numbers are held here as [`scalar::Scalar`] keys: a bijective,
//! order-preserving encoding of binary64 bit patterns into `u64`. Everything
//! this crate decides about reals (ordering, minimum, maximum, box union,
//! sorting along an axis, choosing the nearer hit) works on those keys and is
//! verified; arithmetic on the reals themselves is left to the caller, who
//! hands in its outcomes (whether a ray meets a box, how far away a hit is).
//!
//! - [`aabb`]: axis-aligned boxes and their union.
//! - [`bvh`]: a bounding-volume hierarchy in a flat arena, its construction
//!   and its nearest-hit query, and a plain scan to compare it with.
//! - [`perlin`]: the permutation tables of Perlin noise.
//! - [`textures`], [`materials`]: what surfaces are made of.
pub mod aabb;
pub mod bvh;
pub mod materials;
pub mod perlin;
pub mod scalar;
pub mod textures;

mod rng;

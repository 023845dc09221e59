//! Intersection bookkeeping and render traversal for a sphere ray tracer.
//!
//! The floating-point geometry (vectors, matrices, shading) works on `f32`
//! values; this library keeps the decisions taken on those values exact.
//! A ray parameter `t` is carried as the bit pattern of its IEEE-754
//! binary32 encoding, and the order of binary32 values is stated over
//! those bits, so that sorting intersections and picking the visible one
//! are proved against that order.

pub mod hit_list;
pub mod param;
pub mod raster;

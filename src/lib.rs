//! Integer core of a Monte Carlo path tracer.
//!
//! - `framebuffer`: the pixel store and its cutting into tiles.
//! - `render`: render settings, the static assignment of tiles to worker
//!   threads, and the case analysis of the radiance estimator.
//! - `bvh`: the shape of the bounding volume hierarchy built over the scene.
//! - `geom`: coordinate axes and the random choices made on the scene.
//! - `noise`: the integer lattice of Perlin noise.
//! - `texture`: texel lookup in decoded images.
pub mod bvh;
pub mod framebuffer;
pub mod geom;
pub mod noise;
pub mod render;
pub mod texture;

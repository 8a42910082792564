//! Verified core of a CPU block-world raytracer: world selection, texel
//! lookup on RGBA8 buffers, the row-band partition and per-band pixel loop
//! of the tiled renderer, and integer colour and line-raster helpers.

pub mod color;
pub mod raster;
pub mod texture;
pub mod tiling;
pub mod world;

//! A minimal 2D software rasterizer: lines and filled triangles drawn into
//! any pixel-addressable surface, using integer-only arithmetic.

pub mod buffer;
pub mod drawable;
pub mod raster;
pub mod walk;

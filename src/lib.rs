//! Exact-pixel rasterization of line segments and polygons.

pub mod common_2d;
pub mod line_2d;
pub mod poly_2d;

//! Orthographic six-view projection of coloured point clouds, with a
//! local depth-consistency filter that removes flying pixels.
pub mod filter;
pub mod grid;
pub mod laws;
pub mod projection;
pub mod raster;

pub use grid::{Grid3, Grid4};
pub use projection::{
    orthographic_projection, Projection, ProjectionError, MAX_PRECISION, MAX_TICKS_PER_UNIT,
    OUTLIER_MARGIN,
};
pub use raster::{quantize_rows, rasterize, Buffers, Triple, BACKGROUND};

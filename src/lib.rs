//! Deterministic rasterization of geometric patterns into RGBA buffers,
//! followed by an edge-aware smoothing pass.
//!
//! A frame is a row-major byte buffer of four bytes (R, G, B, A) per pixel.
//! Shape coordinates are fixed-point integers (`raster::SUBPIXEL` units per
//! pixel), so that every rasterizer is stated and proved exactly.
//!
//! - `pixels`: the frame model, pixel reads and writes, frame creation.
//! - `raster`: the circle and even-odd polygon rasterizers.
//! - `smooth`: the edge-aware 3x3 Gaussian smoothing pass.
//! - `rng`: the linear congruential generator that drives the layouts.
//! - `compose`: the concentric, nested-square and radial layouts.
//! - `render`: pattern selection and the concentric pipeline end to end.
pub mod pixels;
pub mod raster;
pub mod smooth;
pub mod rng;
pub mod compose;
pub mod render;

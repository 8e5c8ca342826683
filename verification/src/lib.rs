//! Conversion of a decoded raster image or animation into a compact,
//! run-length-encoded textual representation for cheap transport and replay.
//!
//! The pipeline quantizes each pixel's color to a requested bit depth, packs
//! the three channels into one integer, encodes that integer over a fixed
//! alphabet, transposes frame-major pixel data into per-pixel timelines, and
//! run-length compresses each timeline.

pub mod base_converter;
pub mod bitfield;
pub mod errors;
pub mod image_formats;
pub mod matrix;
pub mod pipeline;
pub mod raster;
pub mod sequence;

//! Scanline filtering for indexed PNG rasters: the five reversible byte
//! predictors, a per-row filter selector, and the drivers that turn a raster
//! into a tagged filtered stream and back.

pub mod filter;
pub mod geometry;
pub mod select;
pub mod stream;

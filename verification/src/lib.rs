//! A verified rendering pipeline for grayscale density images of the
//! Clifford attractor: iterate a two-dimensional quadratic-trigonometric
//! map at arbitrary precision, bin the visited points into a pixel
//! histogram, and tone-map the visit counts into 16-bit luminance values.

pub mod attractor;
pub mod histogram;
pub mod numeric;
pub mod pipeline;
pub mod scaler;
pub mod tonemap;
pub mod wordsum;

pub use attractor::{CliffordAttractor, Point};
pub use histogram::{Histogram, accumulate_chunks, accumulate_scaled, merge};
pub use numeric::{BigReal, BigRealModel, PRECISION, real_from_decimal};
pub use pipeline::{Image, RenderConfig, RenderError, render, scale_points};
pub use scaler::{derive_extent, is_between, scale};
pub use tonemap::{compress_cell, log_floor_3_2, rank_normalize, tone_map};

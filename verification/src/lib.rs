//! Burst photography: many noisy raw frames become one clean picture.
//!
//! A raw file becomes a [`burst::BurstFrame`]; [`align`] finds out how the
//! alternates have moved against the reference, [`merge`] adds them up tile by
//! tile, [`demosaic`] estimates the missing colours, [`color_correction`] makes
//! the result ready for display and [`output`] turns it into bytes. [`laws`] holds
//! what is true of these stages where the number type reckons without rounding.
pub mod align;
pub mod burst;
pub mod color_correction;
pub mod demosaic;
pub mod exact;
pub mod files;
pub mod laws;
pub mod merge;
pub mod metadata;
pub mod output;
mod parallel;
pub mod plane;
pub mod sample;

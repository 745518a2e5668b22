//! Planes, summed-area tables and threshold selection.

pub mod image;
pub mod math;

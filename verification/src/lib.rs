//! Locates an answer sheet among the contours of a photographed page and reads
//! which of its printed options have been marked.
//!
//! All quantities are whole pixels or exact ratios of integers: areas are kept
//! doubled, fill ratios as fractions, thresholds in hundredths.

pub mod config;
pub mod models;
pub mod myutils;
pub mod recognize;

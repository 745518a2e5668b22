use vstd::prelude::*;

verus! {

/// Parameters of preprocessing and of the search for the sheet's outline.
///
/// Factors that are fractions are given as a numerator and a denominator.
pub struct ImageProcessingConfig;

impl ImageProcessingConfig {
    /// Side of the Gaussian blur kernel.
    pub const GAUSSIAN_KERNEL_SIZE: i32 = 5;

    /// Sigma of the Gaussian blur; zero lets the kernel size decide.
    pub const GAUSSIAN_SIGMA: i32 = 0;

    /// Width to which every input image is scaled.
    pub const TARGET_WIDTH: i32 = 2400;

    /// Block size of the adaptive threshold.
    pub const BLOCK_SIZE: i32 = 51;

    /// Constant subtracted by the adaptive threshold.
    pub const C: i32 = 5;

    /// Side of the kernel of the morphological close.
    pub const MORPH_KERNEL: i32 = 3;

    /// The polygon approximation's epsilon is this many thousandths of the
    /// contour's perimeter.
    pub const EPSILON_FACTOR_PER_MILLE: i32 = 15;

    /// A candidate outline covers at least `MIN_AREA_RATIO_NUM /
    /// MIN_AREA_RATIO_DEN` of the plane.
    pub const MIN_AREA_RATIO_NUM: i64 = 3;

    pub const MIN_AREA_RATIO_DEN: i64 = 10;

    /// Area deducted from a candidate's score per pixel of margin.
    pub const MARGIN_PENALTY: i64 = 50;
}

/// Parameters of the search for fiducial marks.
pub struct AssistLocationConfig;

impl AssistLocationConfig {
    /// Margin by which the search region exceeds the expected marks.
    pub const ASSIST_AREA_EXTEND_SIZE: i32 = 6;

    /// Least and greatest side of a mark's bounding box.
    pub const ASSIST_POINT_MIN_SIZE: i32 = 4;

    pub const ASSIST_POINT_MAX_SIZE: i32 = 9;

    /// Least and greatest enclosed area of a mark.
    pub const ASSIST_POINT_MIN_AREA: i64 = 20;

    pub const ASSIST_POINT_MAX_AREA: i64 = 70;

    /// Least fill ratio of a mark's interior, in hundredths.
    pub const ASSIST_POINT_MIN_FILL_PERCENT: i64 = 90;

    /// Greatest difference between a mark's width and height.
    pub const ASSIST_POINT_WHDIFF_MAX: i32 = 2;
}

/// Parameters of the classification of options.
pub struct FillConfig;

impl FillConfig {
    /// Floor of the classification threshold, in hundredths.
    pub const FILL_RATE_MIN_PERCENT: i64 = 50;
}

} // verus!

//! Tunable layout constants.
//!
//! The grouping, classification, quantization and flow components all read
//! their thresholds from a [`LayoutConfig`] rather than from hard-wired
//! numbers. All distances are fixed-point integers in tenths of a source
//! unit; areas (the margin variance bound) are in hundredths of a square
//! unit.

use vstd::prelude::*;

verus! {

/// Largest coordinate magnitude the library accepts, in tenths of a unit
/// (a canvas of 100 000 units on a side, far beyond any page). Keeping
/// coordinates in this range lets every internal computation be proved free
/// of overflow.
pub const COORD_MAX: i64 = 1_000_000;

/// Largest token content length the library accepts. Forced by machine
/// arithmetic limits on grid cursors, not by the layout model.
pub const CONTENT_MAX: usize = 1_000_000;

/// Largest number of tokens one page may carry. Forced by machine
/// arithmetic limits on position sums, not by the layout model.
pub const TOKEN_MAX: usize = 1_000_000_000;

/// Largest grid dimension, in cells.
pub const GRID_DIM_MAX: usize = 4_000_000;

/// Thresholds and scale factors for the layout pipeline.
///
/// Distances are in tenths of a source unit; `margin_var_limit` is in
/// square tenths (so `2000` stands for a variance bound of 20 square units).
pub struct LayoutConfig {
    /// Height of one vertical bucket when grouping tokens into lines.
    pub line_bucket_height: u64,
    /// A horizontal position joins a column bin when it lies within this
    /// distance of the bin's centroid.
    pub col_bin_threshold: u64,
    /// A gap between consecutive right edges wider than this counts as a
    /// big gap for table detection.
    pub big_gap_threshold: u64,
    /// Bound on the variance of line left margins below which a block reads
    /// as a paragraph, in square tenths.
    pub margin_var_limit: u64,
    /// Least average line content width for a block to read as a paragraph.
    pub body_width_min: u64,
    /// Width of one grid cell in source coordinates.
    pub char_width: u64,
    /// Height of one grid row in source coordinates.
    pub line_height: u64,
    /// Vertical gap up to which two grouped lines still share one visual
    /// line of flowed text.
    pub line_gap: u64,
    /// Vertical gap beyond which flowed text starts a new section.
    pub section_gap: u64,
    /// Cap on the number of line breaks inserted for one vertical gap.
    pub max_breaks: u64,
    /// Least number of grid columns.
    pub grid_min_cols: usize,
    /// Least number of grid rows.
    pub grid_min_rows: usize,
    /// Extra grid columns beyond the content's bounding box.
    pub grid_pad_cols: usize,
    /// Extra grid rows beyond the content's bounding box.
    pub grid_pad_rows: usize,
}

impl LayoutConfig {
    /// Every scale and threshold is positive and small enough that the
    /// pipeline's arithmetic stays in range.
    pub open spec fn wf(&self) -> bool {
        &&& 1 <= self.line_bucket_height <= COORD_MAX
        &&& 1 <= self.col_bin_threshold <= COORD_MAX
        &&& 1 <= self.big_gap_threshold <= COORD_MAX
        &&& 1 <= self.margin_var_limit <= 1_000_000_000_000
        &&& 1 <= self.body_width_min <= COORD_MAX
        &&& 1 <= self.char_width <= COORD_MAX
        &&& 1 <= self.line_height <= COORD_MAX
        &&& 1 <= self.line_gap <= self.section_gap
        &&& self.section_gap <= COORD_MAX
        &&& 2 <= self.max_breaks <= 1000
        &&& 1 <= self.grid_min_cols <= GRID_DIM_MAX
        &&& 1 <= self.grid_min_rows <= GRID_DIM_MAX
        &&& self.grid_pad_cols <= 1_000_000
        &&& self.grid_pad_rows <= 1_000_000
    }

    /// Representative defaults: 12-unit line buckets, 40-unit column bins,
    /// 50-unit big gaps, a 20-square-unit margin variance bound, 200-unit
    /// paragraph body width, 8x12-unit grid cells, 12/40-unit flow gaps,
    /// at most 5 inserted breaks, and a 140x60 grid floor.
    pub fn standard() -> (cfg: LayoutConfig)
        ensures
            cfg.wf(),
            cfg.line_bucket_height == 120,
            cfg.col_bin_threshold == 400,
            cfg.big_gap_threshold == 500,
            cfg.margin_var_limit == 2000,
            cfg.body_width_min == 2000,
            cfg.char_width == 80,
            cfg.line_height == 120,
            cfg.line_gap == 120,
            cfg.section_gap == 400,
            cfg.max_breaks == 5,
            cfg.grid_min_cols == 140,
            cfg.grid_min_rows == 60,
            cfg.grid_pad_cols == 50,
            cfg.grid_pad_rows == 20,
    {
        LayoutConfig {
            line_bucket_height: 120,
            col_bin_threshold: 400,
            big_gap_threshold: 500,
            margin_var_limit: 2000,
            body_width_min: 2000,
            char_width: 80,
            line_height: 120,
            line_gap: 120,
            section_gap: 400,
            max_breaks: 5,
            grid_min_cols: 140,
            grid_min_rows: 60,
            grid_pad_cols: 50,
            grid_pad_rows: 20,
        }
    }
}

} // verus!

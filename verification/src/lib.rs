//! Sparklines over ordered samples: the data model, the text renderer and the
//! cell and path layouts that terminal and pixel front ends draw.
//!
//! A sample is an `i64` that stands for a value by its order: of two samples,
//! the smaller stands for the smaller value, equal samples stand for equal
//! values, and the sample `0` stands for the value zero. Samples beyond
//! `±INFINITY_SAMPLE` stand for NaNs, which compare neither above, below nor
//! equal to anything; a double's sample is its bit pattern read as a
//! sign-magnitude integer (`sample_of_bits`). Whatever needs the
//! magnitudes themselves (how high a bar is, where a point lies) is handed to
//! the functions here as already scaled integers.
pub mod model;
pub mod pixel;
pub mod text;
pub mod tui;

pub use crate::model::{
    bits_of_sample, is_nan, sample_of_bits, Marker, Outcome, SparkStyle, Sparkline, SparklineView, INFINITY_SAMPLE,
};
pub use crate::pixel::{fill_path, marker_points, range_fit, stroke_path, PathOp, RangeFit};
pub use crate::text::{block_glyph, LOWER_HALF, UPPER_HALF};
pub use crate::tui::{bars_picture, widget_picture, winloss_picture, Area, Paint, FULL_BLOCK, HLINE};

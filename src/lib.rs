//! Descriptive statistics over a non-empty list of `i32` values: modes, median,
//! mean, extremes, sum, quartiles, range and interquartile range.
//!
//! Values that are halves or fractions of integers (median, quartiles, mean) are
//! held exactly, as `Halves` and `Ratio`, so that every field is proved.

pub mod calls;
pub mod info;
pub mod model;

pub use info::{fits_in_i32, Halves, Ratio, StatisticalInfo, StatsError};

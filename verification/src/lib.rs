//! Tukey (boxplot) outlier classification of integer timing measurements.
//!
//! A sample is a sequence of measurements in whole ticks. Its quartiles are
//! found by linear interpolation between order statistics, the four fences
//! are set one and a half and three interquartile ranges outside the first
//! and third quartile, and every measurement is sorted into one of five
//! buckets by where it lies among the fences. All arithmetic is exact:
//! quartiles are carried in quarters of a tick and fences in eighths.

pub mod decimal;
pub mod fences;
pub mod json;
pub mod outliers;
pub mod quartiles;

pub use crate::outliers::{ClassifyError, Label, Outliers, OutliersView, Report, ReportLine};

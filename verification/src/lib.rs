//! Per-key summary statistics (minimum, mean, maximum) over delimited
//! `key;value` text, where `value` is a signed decimal with one fractional
//! digit. Values are held exactly as integer counts of tenths, so scanning,
//! merging and formatting are all verified down to the output bytes.

pub mod aggmap;
pub mod bytes;
pub mod fmt;
pub mod lines;
pub mod measure;
pub mod parse;
pub mod scan;
pub mod solve;
pub mod split;

pub use aggmap::AggMap;
pub use fmt::{mean_tenths, push_tenths, render};
pub use measure::Measurement;
pub use parse::{parse_value, ParseError};
pub use scan::segment_measurements;
pub use solve::solve;
pub use split::find_segments;

//! Transforms for line-oriented numeric sample files: ramp sequences written
//! from a short command, sampling-rate reduction, conversion of separators,
//! and truncation.

pub mod convert;
pub mod error;
pub mod grammar;
pub mod pattern;
pub mod ramp;
pub mod sampling;
pub mod text;
pub mod truncate;

pub use crate::convert::csv_to_tsv;
pub use crate::error::CsvError;
pub use crate::ramp::single_line_gencsv_with_ramps;
pub use crate::sampling::sampling_conversion;
pub use crate::truncate::csv_truncate;

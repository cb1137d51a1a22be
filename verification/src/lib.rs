//! Time-tracking records from journal text: duration expressions, tag
//! strings, a line scanner that follows the work item in scope, and
//! per-tag accumulation.

pub mod aggregate;
pub mod duration;
pub mod matching;
pub mod scanner;
pub mod tags;
pub mod text;

pub use aggregate::{accumulate, Bucket, SourcedRecord};
pub use duration::{format_duration, parse_duration, TimeDuration};
pub use scanner::parse_time_entries;
pub use tags::extract_tags;

//! Retention and quotas for the stores nothing else bounds.
//!
//! Files are swept by age first and by size second, the log is rotated by
//! size, and the one line the gateway logs says what went.

pub mod files;
pub mod log;
pub mod sweep;

pub use sweep::{cutoff_from_date, RetentionReport, RetentionSweep, RetentionTargets};

//! Bounded leveled compaction: the caller-driven merge engine.
//!
//! One call merges a bounded amount, so a caller decides how long an
//! operation may take. [`cursor`] reads one input table in order,
//! [`sift`] states which entries of the merged inputs survive
//! ([`retention`] proves what that comes to),
//! [`merge`] runs that over the inputs' cursors into a table writer,
//! [`rdel_merge`] does the same for their range tombstones, and
//! [`bounds`] compares key ranges.

pub mod bounds;
pub mod cursor;
pub mod merge;
pub mod rdel_merge;
pub mod retention;
pub mod sift;

pub use merge::{Compaction, Progress, COMPACTION_KMAX};

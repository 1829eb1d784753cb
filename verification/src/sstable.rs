//! Immutable sorted-run tables: streaming writer and point-lookup reader.
//!
//! On-device layout:
//!
//! ```text
//! [data block]* [rdel block]* [bloom block] [index block] [footer block]
//! ```
//!
//! Every block is `BLOCK` bytes; the last 4 bytes are the CRC32 of the
//! preceding payload bytes. All integers are little-endian. The bytes of
//! each kind of block are those of [`format`].
//!
//! A failed CRC means "treat as absent": a bad footer or index block is an
//! [`Error::CorruptBlock`](crate::error::Error::CorruptBlock); a bad data
//! block is skipped. Corruption is never silent.

use vstd::prelude::*;

pub mod block;
pub mod bloom;
pub mod capacity;
pub mod fitting;
pub mod format;
pub mod rdel;
pub mod reader;
pub mod relocate;
pub mod search;
pub mod table;
pub mod writer;
pub mod written;

pub use bloom::{bloom_k, bloom_maybe_contains};
pub use format::SSTABLE_MAGIC;
pub use reader::{Lookup, TableReader};
pub use writer::{plan_table, write_table, SstEntry, TablePlan};

verus! {

} // verus!

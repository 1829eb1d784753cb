//! horton: a log-structured merge-tree key-value store with proved
//! contracts.
//!
//! All I/O goes through one trait, [`BlockDevice`], in whole blocks; all
//! sizes are const generics, and every fallible operation returns
//! [`Error`]. Nothing is allocated: every buffer is an array.
//!
//! - [`memtable`] holds recent mutations, [`wal`] makes them durable, and
//!   [`batch`] groups several into one commit.
//! - [`sstable`] is the immutable sorted run that a flush writes, with a
//!   bloom filter, a block index, a section of range tombstones and
//!   compressed data blocks ([`compress`]).
//! - [`manifest`] is the crash-safe root pointer, [`slots`] the table-slot
//!   allocator.
//! - [`db`] puts them together: point reads with snapshots and TTLs, range
//!   deletes, flush, leveled compaction ([`compact`]), the merge [`Scan`],
//!   and archiving whole tables to storage of the caller's.
//! - [`cache`] is a fixed-capacity block cache, [`flash`] a block device
//!   over NOR flash, [`esp32s3`] a driver for one ([`esp32s3_patience`]
//!   says when it gives up).
//! - [`model`] states the read rules on plain lists.
//!
//! Contracts speak of mathematical views: a device is a map from block id
//! to bytes, a memtable a sequence of records, a table the records and
//! tombstones stored in its blocks, and a read the rule in
//! [`db::view::read_spec`].

use vstd::prelude::*;

pub mod batch;
pub mod body;
pub mod bytes;
pub mod cache;
pub mod compact;
pub mod compress;
pub mod crc;
pub mod db;
pub mod device;
pub mod error;
pub mod esp32s3;
pub mod esp32s3_patience;
pub mod flash;
pub mod grid;
pub mod keys;
pub mod manifest;
pub mod manifest_format;
pub mod manifest_runs;
pub mod memtable;
pub mod model;
pub mod pool;
pub mod profile;
pub mod region;
pub mod slots;
pub mod sstable;
pub mod wal;
pub mod window;

pub use batch::WriteBatch;
pub use cache::{BlockCache, CachePort, CacheStats};
pub use compact::{Compaction, Progress, COMPACTION_KMAX};
pub use crc::crc32;
pub use db::archive::{ArchivePlan, SealedTable};
pub use db::scan::Scan;
pub use db::{Config, Db, OpenReport, SlotStats};
pub use device::BlockDevice;
pub use error::Error;
pub use keys::KeyBound;
pub use manifest::{Manifest, TableRef};
pub use manifest_format::MANIFEST_MAGIC;
pub use memtable::MemTable;
pub use slots::{SlotMap, MAX_SLOTS};
pub use sstable::{bloom_k, bloom_maybe_contains, plan_table, write_table};
pub use sstable::{Lookup, SstEntry, TablePlan, TableReader, SSTABLE_MAGIC};
pub use wal::{Op, RecoverState, WalWriter};

verus! {

} // verus!

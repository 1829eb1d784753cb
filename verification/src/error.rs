//! The crate-wide error type. No strings, no allocation.

use vstd::prelude::*;

verus! {

/// Every failure the crate can report.
///
/// `E` is the error type of the caller's
/// [`BlockDevice`](crate::device::BlockDevice) implementation and is passed
/// through untouched in [`Error::Device`].
#[derive(Debug, Clone, Copy, PartialEq, Eq, Structural)]
#[allow(inconsistent_fields)]
pub enum Error<E> {
    /// Key longer than the table's `KEY_MAX`.
    KeyTooLarge {
        /// Length of the rejected key in bytes.
        len: usize,
        /// The configured maximum.
        max: usize,
    },
    /// Value longer than the table's `VAL_MAX`.
    ValueTooLarge {
        /// Length of the rejected value in bytes.
        len: usize,
        /// The configured maximum.
        max: usize,
    },
    /// Keys must be non-empty.
    EmptyKey,
    /// All memtable slots are in use; the caller should flush.
    TableFull,
    /// The memtable arena is out of bytes; the caller should flush.
    ArenaFull,
    /// The caller's output buffer is too small; `need` bytes are required.
    /// Nothing was truncated.
    BufferTooSmall {
        /// Required buffer length in bytes.
        need: usize,
    },
    /// A block buffer did not match the device's `BLOCK` size.
    BadBufferLen,
    /// A stored block failed its integrity check.
    CorruptBlock {
        /// Block id that failed verification.
        id: u64,
    },
    /// The WAL is inconsistent in a way that is not a clean torn tail.
    CorruptWal {
        /// Block offset where the inconsistency was found.
        offset: u64,
    },
    /// No manifest copy carried a valid CRC, or the manifest describes an
    /// impossible layout.
    CorruptManifest,
    /// Out of addressable blocks (oversize record, exhausted run, ...).
    NoSpace,
    /// The WAL region is exhausted: flush, then retry.
    WalFull,
    /// Level 0 or the table region is full until compaction frees room.
    NeedsCompaction,
    /// The table region is full and compaction has nothing to do.
    RegionFull,
    /// A table does not fit its slot, its index block, or its counters.
    TableTooLarge,
    /// The configured regions are empty, overlap, or are too small.
    BadConfig,
    /// A level beyond the configured ones.
    BadLevel {
        /// The rejected level.
        level: usize,
    },
    /// Every snapshot slot is in use.
    SnapshotLimit,
    /// A sequence or table-id counter is exhausted.
    CounterExhausted,
    /// A [`WriteBatch`](crate::batch::WriteBatch) already holds `OPS`
    /// operations.
    BatchFull,
    /// A [`WriteBatch`](crate::batch::WriteBatch) does not fit one WAL
    /// block, so it cannot commit atomically. Split it into smaller batches.
    BatchTooLarge {
        /// Total encoded size of the batch in bytes.
        bytes: usize,
        /// The WAL block size: the atomicity ceiling.
        max: usize,
    },
    /// Archiving a table was refused: removing it would resurrect a value
    /// that is currently shadowed by one of the table's tombstones in some
    /// live view. The database is unchanged.
    WouldResurrect {
        /// Id of the table whose archival was refused.
        table: u32,
    },
    /// An ingest was refused: a table with the same id is already attached
    /// but its descriptor differs from the one being ingested.
    IngestConflict {
        /// The conflicting table id.
        id: u32,
    },
    /// The database handle was used before a successful open. Nothing was
    /// read or written.
    NotOpen,
    /// The underlying block device reported an error.
    Device(E),
}

} // verus!

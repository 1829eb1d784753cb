//! The database: WAL + memtable + `SSTables` in fixed table slots.
//!
//! Write path is WAL-first: every mutation is appended to the WAL and
//! committed before it lands in the memtable, so a crash can only lose the
//! un-acknowledged tail. [`Db::flush`] drains the memtable into an immutable
//! `SSTable` in a free table slot and commits the manifest; the manifest
//! commit is the single atomic visibility point: a crash before it leaves
//! the old manifest plus a replayable WAL, a crash after it leaves the new
//! state. Reads are served from the memtable first, then level 0 (newest
//! table first), then deeper levels in order; every table is key-range
//! pruned and bloom-gated, and the hit with the highest sequence number
//! wins.
//!
//! This module holds the handle and `open()`; the rest of [`Db`]'s methods
//! live by concern in `write`, `read`, `flush`, `compaction`, `archive`
//! (archive and ingest), and `invariants`.

use vstd::prelude::*;

use crate::cache::{BlockCache, CachePort, CacheStats};
use crate::compact::merge::{COMPACTION_KMAX, MAX_SNAPSHOTS};
use crate::device::BlockDevice;
use crate::error::Error;
use crate::manifest::{
    flat, manifest_shape, max_blocks_of, recovery_of, top_of, Manifest, ManifestLayout, Recovery,
    TableRef,
};
use crate::manifest_format::{fresh_manifest, ManV, TabV, BLOCK_FRAME};
use crate::memtable::{runs_newest_first, top_seq, MemTable, Rec};
use crate::slots::{SlotMap, MAX_SLOTS};
use crate::sstable::capacity::{flush_bound, max_flush_blocks};
use crate::sstable::reader::TableReader;
use crate::sstable::writer::TableWriter;
use crate::wal::{lemma_replay_top, replay_log, seq_max, RecoverState, WalWriter};
use place::{at, placed, sits};
use view::{tab_sound, DimsV};

pub mod accepts;
pub mod archival;
pub mod archive;
pub mod archive_reads;
pub mod commit;
pub mod attaches;
pub mod compact_reads;
pub mod compacted;
pub mod compaction;
pub mod completes;
pub mod detects;
pub mod drains;
pub mod durable;
pub mod durable_commits;
pub mod flush;
pub mod in_flight;
pub mod ingest;
pub mod invariants;
pub mod laws;
pub mod live;
pub mod newest;
pub mod opens;
pub mod place;
pub mod progress;
pub mod purge;
pub mod read;
pub mod revival;
pub mod room;
pub mod round_trip;
pub mod scan;
pub mod select;
pub mod spread;
pub mod step;
pub mod tidiness;
pub mod tightness;
pub mod torn;
pub mod traced;
pub mod turns;
pub mod view;
pub mod write;

verus! {

/// Placement of the database regions on the device.
///
/// Three disjoint regions: the WAL, the table region, and the manifest's
/// copies. Each manifest copy spans `Manifest::max_blocks` blocks (one block
/// for small shapes): by default two copies, starting at `manifest_a` and
/// `manifest_b`; with [`with_manifest_ring`](Config::with_manifest_ring),
/// `n` copies back to back from `manifest_a`. [`Db::open`] refuses
/// overlapping regions with [`Error::BadConfig`].
#[derive(Debug, Clone, Copy, PartialEq, Eq, Structural)]
pub struct Config {
    /// First block id of the WAL region.
    pub wal_start: u64,
    /// One past the last block id of the WAL region.
    pub wal_end: u64,
    /// First block id of the `SSTable` region.
    pub tbl_start: u64,
    /// One past the last block id of the `SSTable` region.
    pub tbl_end: u64,
    /// First block of the first manifest copy.
    pub manifest_a: u64,
    /// First block of the second manifest copy (unused by a ring).
    pub manifest_b: u64,
    /// Manifest copies in a ring from `manifest_a`; 0 for the default pair.
    pub manifest_ring: u32,
}

impl Config {
    /// Describes the WAL region, the `SSTable` region, and the manifest slots.
    #[must_use]
    pub fn new(
        wal_start: u64,
        wal_end: u64,
        tbl_start: u64,
        tbl_end: u64,
        manifest_a: u64,
        manifest_b: u64,
    ) -> (r: Self)
        ensures
            r == (Config {
                wal_start,
                wal_end,
                tbl_start,
                tbl_end,
                manifest_a,
                manifest_b,
                manifest_ring: 0,
            }),
    {
        Config {
            wal_start,
            wal_end,
            tbl_start,
            tbl_end,
            manifest_a,
            manifest_b,
            manifest_ring: 0,
        }
    }

    /// Keeps `copies` manifest copies back to back from `manifest_a`
    /// instead of the pair at `manifest_a` and `manifest_b`. Commits
    /// rotate through the copies, so each copy's blocks are erased once
    /// per `copies` commits: on NOR flash, where the manifest is the most
    /// frequently erased region, this multiplies its life. Fewer than two
    /// copies are treated as two.
    #[must_use]
    pub fn with_manifest_ring(self, copies: u32) -> (r: Self)
        ensures
            r == (Config {
                manifest_ring: if copies < 2 {
                    2
                } else {
                    copies
                },
                ..self
            }),
    {
        Config {
            wal_start: self.wal_start,
            wal_end: self.wal_end,
            tbl_start: self.tbl_start,
            tbl_end: self.tbl_end,
            manifest_a: self.manifest_a,
            manifest_b: self.manifest_b,
            manifest_ring: if copies < 2 {
                2
            } else {
                copies
            },
        }
    }

    /// Where the manifest's copies live.
    pub open spec fn layout_v(self) -> ManifestLayout {
        if self.manifest_ring == 0 {
            ManifestLayout::pair_of(self.manifest_a, self.manifest_b)
        } else {
            ManifestLayout::ring_of(self.manifest_a, self.manifest_ring)
        }
    }

    /// Where copy `k` begins: a pair's by turns, a ring's one behind the
    /// other, round.
    pub proof fn lemma_copy_starts(self, k: int, stride: int)
        requires
            0 <= k,
        ensures
            self.layout_v().start_of(k % self.layout_v().n(), stride) == (if self.manifest_ring
                == 0 {
                if k % 2 == 0 {
                    self.manifest_a as int
                } else {
                    self.manifest_b as int
                }
            } else if self.manifest_ring == 1 {
                self.manifest_a + (k % 2) * stride
            } else {
                self.manifest_a + (k % (self.manifest_ring as int)) * stride
            }),
    {
        ManifestLayout::law_copies_wrap(
            self.manifest_a,
            self.manifest_b,
            self.manifest_ring,
            k,
            stride,
        );
    }

    /// Copy `k` of the manifest, `stride` blocks long, lies in the address
    /// space and apart from the WAL and the tables.
    pub open spec fn copy_ok(self, k: int, stride: int) -> bool {
        let lo = self.layout_v().start_of(k, stride);
        &&& lo + stride <= u64::MAX
        &&& apart(lo, lo + stride, self.wal_start as int, self.wal_end as int)
        &&& apart(lo, lo + stride, self.tbl_start as int, self.tbl_end as int)
    }

    /// The regions are given and pairwise disjoint.
    pub open spec fn regions_ok(self, stride: int) -> bool {
        let l = self.layout_v();
        &&& self.wal_start < self.wal_end
        &&& self.tbl_start < self.tbl_end
        &&& apart(
            self.wal_start as int,
            self.wal_end as int,
            self.tbl_start as int,
            self.tbl_end as int,
        )
        &&& forall|k: int| 0 <= k < l.n() ==> #[trigger] self.copy_ok(k, stride)
        &&& forall|j: int, k: int|
            0 <= j < k < l.n() ==> copies_apart(
                #[trigger] l.start_of(j, stride),
                #[trigger] l.start_of(k, stride),
                stride,
            )
    }
}

/// Two ranges have nothing in common.
pub open spec fn apart(a: int, a_end: int, b: int, b_end: int) -> bool {
    a_end <= b || b_end <= a
}

/// Two copies have nothing in common.
pub open spec fn copies_apart(a: int, b: int, stride: int) -> bool {
    apart(b, b + stride, a, a + stride)
}

/// Table-region occupancy, from [`Db::slot_stats`].
///
/// The table region is `slots` fixed slots of `slot_blocks` blocks, one
/// table per slot (see [`SlotMap`]). `used + reserved + free == slots`.
#[derive(Debug, Clone, Copy, PartialEq, Eq, Structural)]
pub struct SlotStats {
    /// Total table slots (`LEVELS * TABLES`).
    pub slots: u32,
    /// Blocks per slot: the largest table the region holds.
    pub slot_blocks: u64,
    /// Slots holding a live table.
    pub used: u32,
    /// Slots reserved by the in-flight compaction job.
    pub reserved: u32,
    /// Slots available to the next flush, ingest, or compaction output.
    pub free: u32,
}

/// Summary of a [`Db::open`] call.
#[derive(Debug, Clone, Copy)]
pub struct OpenReport {
    /// WAL records replayed into the memtable.
    pub recovered_records: u64,
    /// Highest sequence number found; the next mutation uses `max_seq + 1`.
    pub max_seq: u64,
    /// `SSTables` referenced by level 0 of the recovered manifest.
    pub l0_tables: usize,
}

/// The database handle. Owns the WAL writer (and through it, the device),
/// the memtable, the manifest, and the table-region slot allocator.
///
/// # Type parameters
///
/// | Parameter | Meaning | Limits |
/// |---|---|---|
/// | `D` | the [`BlockDevice`] | `D::BLOCK == BLOCK` |
/// | `BLOCK` | device block size in bytes | fits the largest WAL record, range tombstone, and bloom filter; exceeds the 28-byte manifest block frame |
/// | `KEY_MAX` | longest key | `1..=65535` |
/// | `VAL_MAX` | longest value | `..=65535` |
/// | `CAP` | memtable entry slots | |
/// | `ARENA` | memtable key/value bytes | |
/// | `LEVELS` | LSM levels. `1` disables compaction: level 0 fills, then flush reports [`Error::RegionFull`] | `LEVELS * TABLES` within `1..=64` |
/// | `TABLES` | tables per level (L0's limit; deeper levels share the pool) | below [`COMPACTION_KMAX`] |
/// | `BLOOM_BYTES` | bloom filter bytes per table | `1..=BLOCK-4` |
/// | `CACHE` | block-cache slots; `0` disables the cache | |
///
/// The region layout in [`Config`] is checked by [`open`](Db::open)
/// ([`Error::BadConfig`]).
pub struct Db<
    D: BlockDevice,
    const BLOCK: usize,
    const KEY_MAX: usize,
    const VAL_MAX: usize,
    const CAP: usize,
    const ARENA: usize,
    const LEVELS: usize,
    const TABLES: usize,
    const BLOOM_BYTES: usize,
    const CACHE: usize,
> {
    wal: WalWriter<D, BLOCK>,
    table: MemTable<CAP, ARENA, KEY_MAX, VAL_MAX>,
    manifest: Manifest<LEVELS, TABLES, KEY_MAX>,
    // The table region as `LEVELS * TABLES` fixed slots, one table each.
    // Rebuilt from the manifest by `open()`.
    slots: SlotMap,
    // Generation of the compaction job in flight, stamped into its scratch
    // at select time. A scratch whose stamp no longer matches (another
    // scratch started a job, or the job was aborted) is stale and is reset
    // before it can touch the device.
    job_gen: u64,
    // True while a compaction job holds slot reservations.
    job_active: bool,
    // Slots of the active job's input tables, one bit per slot. Archiving
    // one of them aborts the job (its merge still reads the table).
    job_inputs: u64,
    cfg: Config,
    next_seq: u64,
    // Live snapshot watermarks (sequence numbers). A snapshot pins reads to
    // mutations with `seq <= watermark`; while any snapshot is live,
    // compaction must not drop a tombstone at or above the oldest
    // watermark. Snapshots are in-memory only: they do not survive `open()`.
    snapshots: [u64; MAX_SNAPSHOTS],
    n_snapshots: usize,
    // True once `open` has recovered the database. Every operation that
    // reads or writes the device checks it and returns `NotOpen` otherwise:
    // before recovery the WAL append position is `wal_start`, so a write
    // would clobber live WAL blocks.
    opened: bool,
    // Block-read buffer for point reads, and the block scratch of every
    // other operation.
    get_scratch: [u8; BLOCK],
    // Decompression buffer for point reads: data blocks flagged compressed
    // inflate into here before parsing.
    decomp_scratch: [u8; BLOCK],
    // Block cache, keyed by `(table_id, device_block_id)`.
    cache: BlockCache<BLOCK, CACHE>,
}

/// The images held of table `t` are those of its blocks.
pub open spec fn cached_ok(
    images: Map<(u32, u64), Seq<u8>>,
    c: Map<u64, Seq<u8>>,
    t: TabV,
) -> bool {
    forall|b: u64| #[trigger]
        images.dom().contains((t.id, b)) ==> t.first_block <= b < t.first_block + t.block_count
            && images[(t.id, b)] == c[b]
}

/// The id was issued: below the next one, or ids are used up.
pub open spec fn issued(id: u32, next_id: u32) -> bool {
    id < next_id || next_id == u32::MAX
}

/// Every entry has a sequence number; they start at one.
pub open spec fn seqs_given(mem: Seq<Rec>) -> bool {
    forall|i: int| 0 <= i < mem.len() ==> (#[trigger] mem[i]).seq >= 1
}

/// The id is that of a live table.
pub open spec fn live_id(levels: Seq<Seq<TabV>>, id: u32) -> bool {
    exists|l: int, i: int| at(levels, l, i) && (#[trigger] levels[l][i]).id == id
}

/// Every image held is of a live table.
pub open spec fn images_live(images: Map<(u32, u64), Seq<u8>>, levels: Seq<Seq<TabV>>) -> bool {
    forall|k: (u32, u64)| #[trigger] images.dom().contains(k) ==> live_id(levels, k.0)
}

/// The ids of live tables were issued, and no two share one.
pub open spec fn ids_ok(levels: Seq<Seq<TabV>>, next_id: u32) -> bool {
    &&& forall|l: int, i: int| at(levels, l, i) ==> issued((#[trigger] levels[l][i]).id, next_id)
    &&& forall|l: int, i: int, m: int, j: int|
        at(levels, l, i) && at(levels, m, j) && (#[trigger] levels[l][i]).id == (
        #[trigger] levels[m][j]).id ==> l == m && i == j
}

/// Every live table is intact, and so is what the cache holds of it.
pub open spec fn tables_ok(
    images: Map<(u32, u64), Seq<u8>>,
    c: Map<u64, Seq<u8>>,
    levels: Seq<Seq<TabV>>,
    d: DimsV,
) -> bool {
    forall|l: int, i: int|
        at(levels, l, i) ==> tab_sound(c, #[trigger] levels[l][i], d) && cached_ok(
            images,
            c,
            levels[l][i],
        )
}

impl<
    D: BlockDevice,
    const BLOCK: usize,
    const KEY_MAX: usize,
    const VAL_MAX: usize,
    const CAP: usize,
    const ARENA: usize,
    const LEVELS: usize,
    const TABLES: usize,
    const BLOOM_BYTES: usize,
    const CACHE: usize,
> Db<D, BLOCK, KEY_MAX, VAL_MAX, CAP, ARENA, LEVELS, TABLES, BLOOM_BYTES, CACHE> {
    /// The sizes that tables are made for.
    pub open spec fn dims() -> DimsV {
        DimsV {
            block: BLOCK as int,
            bloom: BLOOM_BYTES as int,
            key_max: KEY_MAX,
            val_max: VAL_MAX,
        }
    }

    /// Blocks of one manifest copy.
    pub open spec fn stride() -> int {
        max_blocks_of(LEVELS, TABLES, KEY_MAX, BLOCK as nat)
    }

    /// The type parameters keep within their limits.
    pub open spec fn shape() -> bool {
        &&& BLOCK == D::BLOCK
        &&& 512 <= BLOCK <= 0x7_0000
        &&& 1 <= KEY_MAX <= 0xFFFF
        &&& VAL_MAX <= 0xFFFF
        &&& BLOCK >= 23 + KEY_MAX + VAL_MAX
        &&& 1 <= BLOOM_BYTES
        &&& BLOOM_BYTES + 4 <= BLOCK
        &&& 1 <= LEVELS
        &&& 1 <= TABLES < COMPACTION_KMAX
        &&& LEVELS * TABLES <= MAX_SLOTS
        &&& 12 + 2 * KEY_MAX + 6 <= BLOCK
        &&& BLOCK > BLOCK_FRAME
        &&& Self::stride() <= 0xFFFF
        &&& 1 <= CAP
        &&& CAP + 3 <= u32::MAX
        &&& ARENA <= u32::MAX
    }

    /// The device's blocks.
    pub closed spec fn content(&self) -> Map<u64, Seq<u8>> {
        self.wal.content()
    }

    /// The blocks that a power loss leaves.
    pub closed spec fn kept(&self) -> Map<u64, Seq<u8>> {
        self.wal.dev().durable()
    }

    /// What a power loss leaves of block `x` is what is stored there.
    pub open spec fn synced(&self, x: u64) -> bool {
        self.kept()[x] == self.content()[x]
    }

    /// Blocks outside `[lo, hi)` that were synced in `o` still are.
    pub open spec fn synced_since(&self, o: &Self, lo: int, hi: int) -> bool {
        forall|x: u64| !(lo <= x < hi) && o.synced(x) ==> #[trigger] self.synced(x)
    }

    /// Block `x` lies in a slot that holds no live table.
    pub open spec fn spare_block(&self, x: u64) -> bool {
        exists|s: u32|
            s < self.slot_map().slot_count() && !(#[trigger] self.slot_map().used(s))
                && self.slot_map().base_of(s as int) <= x < self.slot_map().base_of(s + 1)
    }

    /// A power loss leaves everything but what is in spare slots.
    pub open spec fn settled(&self) -> bool {
        forall|x: u64| #[trigger] self.synced(x) || self.spare_block(x)
    }

    /// The memtable.
    pub closed spec fn mem(&self) -> Seq<Rec> {
        self.table@
    }

    /// The manifest.
    pub closed spec fn man(&self) -> ManV {
        self.manifest@
    }

    /// The sequence number issued last.
    pub closed spec fn issued_seq(&self) -> u64 {
        self.next_seq
    }

    /// The live snapshots.
    pub closed spec fn snaps(&self) -> Seq<u64> {
        self.snapshots@.take(self.n_snapshots as int)
    }

    /// The handle is open.
    pub closed spec fn is_opened(&self) -> bool {
        self.opened
    }

    /// The configuration.
    pub closed spec fn config(&self) -> Config {
        self.cfg
    }

    /// What the block cache holds.
    pub closed spec fn images(&self) -> Map<(u32, u64), Seq<u8>> {
        self.cache.images()
    }

    /// The block cache's counters.
    pub closed spec fn cache_counts(&self) -> CacheStats {
        CacheStats {
            hits: self.cache.hits(),
            misses: self.cache.misses(),
            len: crate::cache::occupied_count(self.cache.slots()) as usize,
            capacity: CACHE,
        }
    }

    /// The table slots.
    pub closed spec fn slot_map(&self) -> SlotMap {
        self.slots
    }

    /// Where the WAL is appended to next.
    pub closed spec fn wal_next(&self) -> u64 {
        self.wal.next()
    }

    /// A compaction job is in flight, and its generation.
    pub closed spec fn job(&self) -> (bool, u64) {
        (self.job_active, self.job_gen)
    }

    /// Slots of the job's input tables, one bit per slot.
    pub closed spec fn job_slots(&self) -> u64 {
        self.job_inputs
    }

    /// The slots are those of the configured region.
    pub open spec fn slots_laid(&self) -> bool {
        let s = self.slot_map();
        let n = LEVELS * TABLES;
        let c = self.config();
        &&& s.slot_count() == n
        &&& s.blocks_per_slot() == (c.tbl_end - c.tbl_start) / n
        &&& s.blocks_per_slot() >= flush_bound(
            BLOCK as int,
            CAP as int,
            ARENA as int,
            KEY_MAX as int,
            VAL_MAX as int,
        )
        &&& s.base_of(0) == c.tbl_start
        &&& s.base_of(n) <= c.tbl_end
    }

    /// What an open handle satisfies.
    pub open spec fn open_wf(&self) -> bool {
        &&& self.config().regions_ok(Self::stride())
        &&& self.slots_laid()
        &&& self.slot_map().disjoint()
        &&& !self.job().0 ==> forall|i: u32| !#[trigger] self.slot_map().reserved(i)
        &&& self.issued_seq() >= self.man().seq_high
        &&& self.issued_seq() >= top_seq(self.mem())
        &&& forall|i: int|
            0 <= i < self.snaps().len() ==> #[trigger] self.snaps()[i] <= self.issued_seq()
    }

    /// What every handle satisfies.
    pub closed spec fn wf(&self) -> bool {
        &&& Self::shape()
        &&& self.wal.wf()
        &&& self.wal.start() == self.cfg.wal_start
        &&& self.wal.end() == self.cfg.wal_end
        &&& self.wal.staged().len() == 0
        &&& self.table.wf()
        &&& self.manifest.wf()
        &&& self.slots.wf()
        &&& self.cache.port_wf()
        &&& self.n_snapshots <= MAX_SNAPSHOTS
        &&& self.opened ==> self.open_wf()
    }

    /// Live tables sit in slots of their own.
    #[verifier::opaque]
    pub open spec fn seated(&self) -> bool {
        placed(self.slot_map(), self.man().levels)
    }

    /// The ids of live tables were issued, and no two share one.
    pub open spec fn ids_apart(&self) -> bool {
        ids_ok(self.man().levels, self.man().next_table_id)
    }

    /// Live tables sit in slots of their own under ids of their own.
    #[verifier::opaque]
    pub open spec fn tidy(&self) -> bool {
        &&& placed(self.slot_map(), self.man().levels)
        &&& ids_ok(self.man().levels, self.man().next_table_id)
    }

    /// The configured regions overlap or are too small, or a table slot
    /// cannot take a flush.
    pub open spec fn bad_config(&self) -> bool {
        let cfg = self.config();
        let per_slot = (cfg.tbl_end - cfg.tbl_start) / (LEVELS * TABLES);
        ||| !cfg.regions_ok(max_blocks_of(LEVELS, TABLES, KEY_MAX, BLOCK as nat))
        ||| per_slot == 0
        ||| per_slot < flush_bound(
            BLOCK as int,
            CAP as int,
            ARENA as int,
            KEY_MAX as int,
            VAL_MAX as int,
        )
    }

    /// Every live table is intact and the memtable ordered: reads are exact.
    pub open spec fn sound(&self) -> bool {
        &&& self.is_opened()
        &&& self.config().wal_start <= self.wal_next()
        &&& self.man().flushed_seq <= self.issued_seq()
        &&& top_of(flat(self.man().levels)) <= self.issued_seq()
        &&& runs_newest_first(self.mem())
        &&& seqs_given(self.mem())
        &&& self.tidy()
        &&& tables_ok(self.images(), self.content(), self.man().levels, Self::dims())
        &&& images_live(self.images(), self.man().levels)
    }

    /// What a read of `key` at `max_seq` and tick `now` returns.
    pub open spec fn value_at(&self, key: Seq<u8>, max_seq: u64, now: u64) -> Option<Seq<u8>> {
        view::read_spec(
            self.mem(),
            self.content(),
            self.man().levels,
            Self::dims(),
            key,
            max_seq,
            now,
            None,
        )
    }

    /// Nothing but buffers and the cache differs.
    pub open spec fn same_state(&self, o: &Self) -> bool {
        &&& self.content() == o.content()
        &&& self.synced_since(o, 0, 0)
        &&& self.mem() == o.mem()
        &&& self.man() == o.man()
        &&& self.issued_seq() == o.issued_seq()
        &&& self.snaps() == o.snaps()
        &&& self.is_opened() == o.is_opened()
        &&& self.config() == o.config()
        &&& self.slot_map() == o.slot_map()
        &&& self.wal_next() == o.wal_next()
        &&& self.job() == o.job()
        &&& self.job_slots() == o.job_slots()
    }

    /// The limits hold.
    pub proof fn lemma_wf(&self)
        requires
            self.wf(),
        ensures
            Self::shape(),
            self.is_opened() ==> self.open_wf(),
            self.snaps().len() <= MAX_SNAPSHOTS,
            self.man().levels.len() == LEVELS,
            self.slot_map().wf(),
    {
        self.manifest.lemma_wf();
    }

    /// An open handle stays so while its sequence counter only grows.
    pub proof fn lemma_open_kept(a: &Self, b: &Self)
        requires
            a.open_wf(),
            b.config() == a.config(),
            b.slot_map() == a.slot_map(),
            b.man() == a.man(),
            b.snaps() == a.snaps(),
            b.job() == a.job(),
            b.issued_seq() >= a.issued_seq(),
            top_seq(b.mem()) <= b.issued_seq(),
        ensures
            b.open_wf(),
    {
        assert forall|i: int| 0 <= i < b.snaps().len() implies #[trigger] b.snaps()[i]
            <= b.issued_seq() by {
            assert(a.snaps()[i] <= a.issued_seq());
        }
    }

    /// The shape admits a manifest, a memtable, readers and writers.
    proof fn lemma_shape()
        requires
            Self::shape(),
        ensures
            manifest_shape(LEVELS, TABLES, KEY_MAX),
            crate::memtable::shape_ok(CAP, ARENA, KEY_MAX, VAL_MAX),
            TableReader::<D, BLOCK, BLOOM_BYTES>::shape_ok(),
            TableWriter::<BLOCK, BLOOM_BYTES, KEY_MAX>::shape_ok(),
    {
        assert(LEVELS <= LEVELS * TABLES) by (nonlinear_arith)
            requires
                TABLES >= 1,
        ;
        let a = LEVELS * TABLES;
        assert(a * (44 + 2 * KEY_MAX) <= 64 * (44 + 2 * 0xFFFF)) by (nonlinear_arith)
            requires
                0 <= a <= 64,
                KEY_MAX <= 0xFFFF,
        ;
    }

    /// Whether the type parameters keep within their limits, so that a
    /// handle can be made.
    #[must_use]
    pub fn admits() -> (r: bool)
        ensures
            r == Self::shape(),
    {
        let limits: bool = BLOCK == D::BLOCK && 512 <= BLOCK && BLOCK <= 0x7_0000 && 1 <= KEY_MAX
            && KEY_MAX <= 0xFFFF && VAL_MAX <= 0xFFFF && 23 + KEY_MAX + VAL_MAX <= BLOCK && 1
            <= BLOOM_BYTES && BLOOM_BYTES <= BLOCK - 4 && 1 <= LEVELS && LEVELS <= MAX_SLOTS && 1
            <= TABLES && TABLES < COMPACTION_KMAX && 12 + 2 * KEY_MAX + 6 <= BLOCK && 1 <= CAP
            && CAP <= 0xFFFF_FFFC && ARENA <= 0xFFFF_FFFF;
        proof {
            if TABLES >= 1 {
                assert(LEVELS * TABLES >= LEVELS) by (nonlinear_arith)
                    requires
                        TABLES >= 1,
                        LEVELS >= 0,
                ;
            }
        }
        if !limits {
            return false;
        }
        proof {
            assert(LEVELS * TABLES <= 64 * 8) by (nonlinear_arith)
                requires
                    LEVELS <= 64,
                    TABLES < 8,
            ;
        }
        if LEVELS * TABLES > MAX_SLOTS {
            return false;
        }
        proof {
            let a = LEVELS * TABLES;
            assert(a * (44 + 2 * KEY_MAX) <= 64 * (44 + 2 * 0xFFFF)) by (nonlinear_arith)
                requires
                    0 <= a <= 64,
                    KEY_MAX <= 0xFFFF,
            ;
        }
        Manifest::<LEVELS, TABLES, KEY_MAX>::max_blocks::<BLOCK>() <= 0xFFFF
    }

    /// Creates a closed database handle over `device`.
    #[must_use]
    pub fn new(device: D, config: Config) -> (r: Self)
        requires
            Self::shape(),
        ensures
            r.wf(),
            !r.is_opened(),
            r.content() == device.content(),
            r.config() == config,
            r.mem() == Seq::<Rec>::empty(),
            r.snaps() == Seq::<u64>::empty(),
            r.images() =~= Map::<(u32, u64), Seq<u8>>::empty(),
    {
        proof {
            Self::lemma_shape();
        }
        let r = Db {
            wal: WalWriter::new(device, config.wal_start, config.wal_end),
            table: MemTable::new(),
            manifest: Manifest::new(),
            slots: SlotMap::new(),
            job_gen: 0,
            job_active: false,
            job_inputs: 0,
            cfg: config,
            next_seq: 0,
            snapshots: [0u64;MAX_SNAPSHOTS],
            n_snapshots: 0,
            opened: false,
            get_scratch: [0u8;BLOCK],
            decomp_scratch: [0u8;BLOCK],
            cache: BlockCache::new(),
        };
        proof {
            assert(r.snaps() =~= Seq::<u64>::empty());
            assert forall|k: (u32, u64)| !#[trigger] r.images().dom().contains(k) by {
                if r.images().dom().contains(k) {
                    let s = r.cache.slots();
                    assert(crate::cache::has_image(s, k.0, k.1));
                }
            }
        }
        r
    }

    /// Whether [`open`](Db::open) has completed successfully on this handle.
    #[must_use]
    pub fn is_open(&self) -> (r: bool)
        ensures
            r == self.is_opened(),
    {
        self.opened
    }

    /// The underlying device, to stream a sealed table's blocks from.
    #[must_use]
    pub fn device(&self) -> (r: &D)
        requires
            self.wf(),
        ensures
            r.content() == self.content(),
    {
        self.wal.device()
    }

    /// `Err(NotOpen)` unless [`open`](Db::open) has succeeded.
    pub fn ensure_open(&self) -> (r: Result<(), Error<D::Error>>)
        ensures
            r == (if self.is_opened() {
                Ok::<(), Error<D::Error>>(())
            } else {
                Err(Error::NotOpen)
            }),
    {
        if self.opened {
            Ok(())
        } else {
            Err(Error::NotOpen)
        }
    }

    /// Where the manifest's copies live.
    fn manifest_layout(&self) -> (r: ManifestLayout)
        ensures
            r == self.config().layout_v(),
    {
        if self.cfg.manifest_ring == 0 {
            ManifestLayout::pair(self.cfg.manifest_a, self.cfg.manifest_b)
        } else {
            ManifestLayout::ring(self.cfg.manifest_a, self.cfg.manifest_ring)
        }
    }

    /// Consumes the handle and returns the underlying device.
    #[must_use]
    pub fn into_device(self) -> (r: D)
        ensures
            r.content() == self.content(),
    {
        self.wal.into_device()
    }

    /// Refuses a configuration whose regions are empty or overlap: the
    /// WAL, the table region, and every manifest copy
    /// (`Manifest::max_blocks` blocks each) must be pairwise disjoint.
    fn check_regions(&self) -> (r: Result<(), Error<D::Error>>)
        requires
            Self::shape(),
        ensures
            r == (if self.config().regions_ok(Self::stride()) {
                Ok::<(), Error<D::Error>>(())
            } else {
                Err(Error::BadConfig)
            }),
    {
        proof {
            Self::lemma_shape();
        }
        let c: Config = self.cfg;
        let stride: u64 = Manifest::<LEVELS, TABLES, KEY_MAX>::max_blocks::<BLOCK>();
        let layout: ManifestLayout = self.manifest_layout();
        if c.wal_start >= c.wal_end || c.tbl_start >= c.tbl_end || !(c.wal_end <= c.tbl_start
            || c.tbl_end <= c.wal_start) {
            return Err(Error::BadConfig);
        }
        let n: u32 = layout.copies();
        let mut k: u32 = 0;
        while k < n
            invariant
                c == self.config(),
                layout == c.layout_v(),
                n == layout.n(),
                stride == Self::stride(),
                k <= n,
                c.wal_start < c.wal_end,
                c.tbl_start < c.tbl_end,
                apart(
                    c.wal_start as int,
                    c.wal_end as int,
                    c.tbl_start as int,
                    c.tbl_end as int,
                ),
                forall|i: int| 0 <= i < k ==> #[trigger] c.copy_ok(i, stride as int),
                forall|j: int, i: int|
                    0 <= j < i < k ==> copies_apart(
                        #[trigger] layout.start_of(j, stride as int),
                        #[trigger] layout.start_of(i, stride as int),
                        stride as int,
                    ),
            decreases n - k,
        {
            let (lo, hi): (u64, u64) = match layout.copy_span(k, stride) {
                None => {
                    assert(!c.copy_ok(k as int, stride as int));
                    return Err(Error::BadConfig);
                },
                Some(s) => s,
            };
            if !(hi <= c.wal_start || c.wal_end <= lo) || !(hi <= c.tbl_start || c.tbl_end <= lo) {
                assert(!c.copy_ok(k as int, stride as int));
                return Err(Error::BadConfig);
            }
            assert(c.copy_ok(k as int, stride as int));
            let mut j: u32 = 0;
            while j < k
                invariant
                    c == self.config(),
                    layout == c.layout_v(),
                    n == layout.n(),
                    stride == Self::stride(),
                    j <= k < n,
                    lo == layout.start_of(k as int, stride as int),
                    hi == lo + stride,
                    forall|i: int| 0 <= i < k ==> #[trigger] c.copy_ok(i, stride as int),
                    forall|i: int|
                        0 <= i < j ==> copies_apart(
                            #[trigger] layout.start_of(i, stride as int),
                            lo as int,
                            stride as int,
                        ),
                decreases k - j,
            {
                assert(c.copy_ok(j as int, stride as int));
                let (other, other_end): (u64, u64) = match layout.copy_span(j, stride) {
                    None => {
                        return Err(Error::BadConfig);
                    },
                    Some(s) => s,
                };
                if !(hi <= other || other_end <= lo) {
                    assert(!copies_apart(
                        layout.start_of(j as int, stride as int),
                        layout.start_of(k as int, stride as int),
                        stride as int,
                    ));
                    return Err(Error::BadConfig);
                }
                j = j + 1;
            }
            k = k + 1;
        }
        Ok(())
    }

    /// Marks the slot of every live table in `slots` as used. Every live
    /// table must sit wholly inside its own slot: a table straddling a slot
    /// boundary, or two tables in one slot, cannot have been written under
    /// this layout, and guessing would hand out live blocks. Next-fit
    /// resumes past the newest table, so allocation keeps rotating across
    /// reboots. `false` when a table has no slot of its own.
    fn mark_tables(&self, slots: &mut SlotMap) -> (r: bool)
        requires
            self.manifest.wf(),
            old(slots).wf(),
            forall|i: u32| !#[trigger] old(slots).used(i),
            forall|i: u32| !#[trigger] old(slots).reserved(i),
            old(slots).next_hint() == 0,
        ensures
            final(slots).wf(),
            final(slots).same_layout(old(slots)),
            r ==> hint_resumed(*final(slots), self.man().levels),
            forall|i: u32| !#[trigger] final(slots).reserved(i),
            r == placeable(*old(slots), self.man().levels),
            r ==> placed(*final(slots), self.man().levels),
    {
        let ghost levels = self.man().levels;
        let ghost s0 = *slots;
        let mut newest: Option<(u32, u32)> = None;
        let ghost mut nl: int = 0;
        let ghost mut ni: int = 0;
        let mut li: usize = 0;
        proof {
            self.manifest.lemma_wf();
            assert(placed_upto(*slots, levels, 0, 0));
        }
        while li < LEVELS
            invariant
                self.manifest.wf(),
                levels == self.man().levels,
                levels.len() == LEVELS,
                s0 == *old(slots),
                li <= LEVELS,
                slots.wf(),
                slots.same_layout(&s0),
                forall|i: u32| !#[trigger] slots.reserved(i),
                placed_upto(*slots, levels, li as int, 0),
                slots.next_hint() == 0,
                newest_found(s0, levels, newest, nl, ni, li as int, 0),
            decreases LEVELS - li,
        {
            let tables: &[TableRef<KEY_MAX>] = match self.manifest.level(li) {
                Some(ts) => ts,
                None => {
                    return false;
                },
            };
            let mut i: usize = 0;
            assert(crate::manifest::tab_views(tables@) == levels[li as int]);
            while i < tables.len()
                invariant
                    levels == self.man().levels,
                    levels.len() == LEVELS,
                    li < LEVELS,
                    crate::manifest::tab_views(tables@) == levels[li as int],
                    i <= tables@.len(),
                    s0 == *old(slots),
                    slots.wf(),
                    slots.same_layout(&s0),
                    forall|i: u32| !#[trigger] slots.reserved(i),
                    placed_upto(*slots, levels, li as int, i as int),
                    slots.next_hint() == 0,
                    newest_found(s0, levels, newest, nl, ni, li as int, i as int),
                decreases tables@.len() - i,
            {
                let ghost t = tables@[i as int]@;
                assert(levels[li as int][i as int] == t);
                let slot: u32 = match slots.slot_of(
                    tables[i].first_block,
                    tables[i].block_count as u64,
                ) {
                    Some(s) => s,
                    None => {
                        proof {
                            assert(at(levels, li as int, i as int));
                            assert forall|s: u32| !#[trigger] sits(s0, t, s) by {
                                place::lemma_sits_same(*slots, s0, t, s);
                            }
                            assert(!housable(s0, levels[li as int][i as int]));
                        }
                        return false;
                    },
                };
                let ghost before = *slots;
                if !slots.mark_used(slot) {
                    proof {
                        place::lemma_sits_same(before, s0, t, slot);
                        lemma_shared(before, s0, levels, li as int, i as int, slot);
                    }
                    return false;
                }
                proof {
                    lemma_mark(before, *slots, levels, li as int, i as int, slot);
                }
                let id: u32 = tables[i].id;
                proof {
                    place::lemma_sits_same(before, s0, t, slot);
                    let newer = match newest {
                        None => true,
                        Some((best, _)) => id > best,
                    };
                    if newer {
                        nl = li as int;
                        ni = i as int;
                    }
                }
                newest = match newest {
                    None => Some((id, slot)),
                    Some((best, s)) => if id > best {
                        Some((id, slot))
                    } else {
                        Some((best, s))
                    },
                };
                i = i + 1;
            }
            proof {
                assert(placed_upto(*slots, levels, li + 1, 0)) by {
                    lemma_next_level(*slots, levels, li as int);
                }
                lemma_newest_level(s0, levels, newest, nl, ni, li as int);
            }
            li = li + 1;
        }
        proof {
            lemma_placed_all(*slots, s0, levels);
        }
        let ghost marked = *slots;
        match newest {
            Some((_, slot)) => {
                slots.set_hint_after(slot);
                proof {
                    place::lemma_sits_same(s0, *slots, levels[nl][ni], slot);
                    assert(newest_upto(levels, nl, ni, levels.len() as int, 0));
                    assert(sits(*slots, levels[nl][ni], slot));
                }
            },
            None => {
                assert forall|l: int| 0 <= l < levels.len() implies (
                #[trigger] levels[l]).len() == 0 by {
                    if levels[l].len() > 0 {
                        assert(at(levels, l, 0));
                        assert(ahead_of(l, 0, levels.len() as int, 0));
                    }
                }
            },
        }
        proof {
            place::lemma_place_same(marked, *slots, levels);
        }
        true
    }

    /// Opens the database: recovers the manifest, rebuilds the table-slot
    /// map from it, replays the WAL from the manifest's `wal_head` into a
    /// fresh memtable, and resumes the sequence counter and the WAL append
    /// position. Idempotent.
    ///
    /// The table region is laid out as `LEVELS * TABLES` equal slots (see
    /// [`SlotMap`]); a slot is used exactly when a manifest table lives in
    /// it. Blocks left behind by a torn flush or an abandoned compaction
    /// need no sweep: they sit in a slot no table references, which is
    /// simply free. Any in-flight compaction job is forgotten (its scratch
    /// resets on its next step), and so are snapshots.
    ///
    /// # Errors
    ///
    /// [`Error::BadConfig`] when the regions overlap or are empty, or the
    /// table region is too small for the slot layout (each slot must hold
    /// a full memtable's table),
    /// [`Error::CorruptManifest`] (also when a live table does not sit
    /// wholly inside its own slot), [`Error::CorruptWal`], or
    /// [`Error::Device`].
    pub fn open(&mut self) -> (r: Result<OpenReport, Error<D::Error>>)
        requires
            old(self).wf(),
        ensures
            final(self).wf(),
            final(self).content() == old(self).content(),
            final(self).kept() == old(self).kept(),
            final(self).config() == old(self).config(),
            final(self).images() == old(self).images(),
            final(self).is_opened() == (r is Ok),
            final(self).snaps().len() == 0,
            !final(self).job().0,
            r is Ok ==> final(self).seated(),
            r is Ok ==> final(self).tidy() == final(self).ids_apart(),
            (r matches Err(Error::BadConfig)) <==> old(self).bad_config(),
            match r {
                Ok(rep) => opened_as(*final(self), rep),
                Err(e) => open_refused(*old(self), e),
            },
    {
        // A failed or interrupted open leaves the handle closed.
        self.opened = false;
        self.table.clear();
        self.job_active = false;
        self.job_inputs = 0;
        self.job_gen = self.job_gen.wrapping_add(1);
        self.n_snapshots = 0;
        let ghost c = self.content();
        match self.check_regions() {
            Ok(()) => {},
            Err(e) => {
                return Err(e);
            },
        }
        let min_blocks: u64 = max_flush_blocks::<BLOCK>(CAP, ARENA, KEY_MAX, VAL_MAX);
        assert(LEVELS * TABLES <= 64);
        let n: usize = LEVELS * TABLES;
        proof {
            Self::lemma_shape();
            assert(n >= 1) by (nonlinear_arith)
                requires
                    n == LEVELS * TABLES,
                    LEVELS >= 1,
                    TABLES >= 1,
            ;
        }
        let mut slots: SlotMap = match SlotMap::layout(
            self.cfg.tbl_start,
            self.cfg.tbl_end,
            n,
            min_blocks,
        ) {
            Some(s) => s,
            None => {
                return Err(Error::BadConfig);
            },
        };
        let layout: ManifestLayout = self.manifest_layout();
        assert(layout.fits(Self::stride())) by {
            assert forall|k: int| 0 <= k < layout.n() implies #[trigger] layout.start_of(
                k,
                Self::stride(),
            ) + Self::stride() <= u64::MAX by {
                assert(self.config().copy_ok(k, Self::stride()));
            }
        }
        let (manifest, fresh): (Manifest<LEVELS, TABLES, KEY_MAX>, bool) =
            match Manifest::recover_from(self.wal.device_mut(), &mut self.get_scratch, layout) {
            Ok(m) => m,
            Err(e) => {
                return Err(e);
            },
        };
        self.manifest = manifest;
        if fresh {
            // Nothing was ever committed: the whole WAL region is live.
            self.manifest.set_wal_head(self.cfg.wal_start);
        }
        let ghost s0 = slots;
        if !self.mark_tables(&mut slots) {
            return Err(Error::CorruptManifest);
        }
        self.slots = slots;
        // The persisted flush floor skips stale pre-wrap WAL records. It
        // must be the persisted value, not one derived from live tables:
        // compaction and archival can remove the tables holding the newest
        // sequences, and a derived floor would then fall below stale
        // records and replay them.
        proof {
            lemma_replay_top(
                c,
                self.man().wal_head as int,
                self.cfg.wal_end as int,
                Seq::empty(),
                self.man().flushed_seq,
                CAP,
                ARENA,
                KEY_MAX,
                VAL_MAX,
            );
        }
        let state: RecoverState = match self.wal.recover_from(
            &mut self.table,
            self.manifest.wal_head(),
            self.manifest.flushed_seq(),
        ) {
            Ok(s) => s,
            Err(e) => {
                return Err(e);
            },
        };
        // Resume above every sequence ever issued: the WAL's newest record,
        // the persisted high-water mark, and any live table (an ingested
        // table can carry sequences from another history).
        let mut next: u64 = state.max_seq;
        if self.manifest.seq_high() > next {
            next = self.manifest.seq_high();
        }
        if self.manifest.max_seq() > next {
            next = self.manifest.max_seq();
        }
        self.next_seq = next;
        self.opened = true;
        proof {
            reveal(Db::tidy);
            reveal(Db::seated);
        }
        let l0_tables: usize = self.manifest.l0().len();
        Ok(OpenReport { recovered_records: state.records, max_seq: next, l0_tables })
    }
}

/// A table can sit in some slot.
pub open spec fn housable(slots: SlotMap, t: TabV) -> bool {
    exists|s: u32| #[trigger] sits(slots, t, s)
}

/// Every live table can sit in a slot of its own.
pub open spec fn placeable(slots: SlotMap, levels: Seq<Seq<TabV>>) -> bool {
    &&& forall|l: int, i: int| at(levels, l, i) ==> housable(slots, #[trigger] levels[l][i])
    &&& forall|l: int, i: int, m: int, j: int, s: u32|
        at(levels, l, i) && at(levels, m, j) && #[trigger] sits(slots, levels[l][i], s)
            && #[trigger] sits(slots, levels[m][j], s) ==> l == m && i == j
}

/// The position comes before position `i` of level `l`.
pub open spec fn ahead_of(m: int, j: int, l: int, i: int) -> bool {
    m < l || (m == l && j < i)
}

/// The table at position `(l, i)` has the highest id of those before
/// position `(n, k)`, the first of them where several share it.
pub open spec fn newest_upto(
    levels: Seq<Seq<TabV>>,
    l: int,
    i: int,
    n: int,
    k: int,
) -> bool {
    &&& at(levels, l, i)
    &&& ahead_of(l, i, n, k)
    &&& forall|m: int, j: int|
        at(levels, m, j) && ahead_of(m, j, n, k) ==> (#[trigger] levels[m][j]).id
            <= levels[l][i].id
    &&& forall|m: int, j: int|
        at(levels, m, j) && ahead_of(m, j, l, i) ==> (#[trigger] levels[m][j]).id
            < levels[l][i].id
}

/// The search for a free slot begins past the slot of the table with the
/// highest id, or at the first slot where there is no table.
pub open spec fn hint_resumed(slots: SlotMap, levels: Seq<Seq<TabV>>) -> bool {
    ||| slots.next_hint() == 0 && forall|l: int| 0 <= l < levels.len() ==> (
    #[trigger] levels[l]).len() == 0
    ||| exists|l: int, i: int, s: u32| #[trigger]
        newest_upto(levels, l, i, levels.len() as int, 0) && #[trigger] sits(slots, levels[l][i], s)
            && slots.next_hint() == (s + 1) % (slots.slot_count() as int)
}

/// What a walk over the tables before position `(n, k)` has found: the
/// newest one and its slot, at `(l, i)`.
spec fn newest_found(
    slots: SlotMap,
    levels: Seq<Seq<TabV>>,
    newest: Option<(u32, u32)>,
    l: int,
    i: int,
    n: int,
    k: int,
) -> bool {
    match newest {
        None => forall|m: int, j: int|
            at(levels, m, j) ==> !#[trigger] ahead_of(m, j, n, k),
        Some((id, s)) => {
            &&& newest_upto(levels, l, i, n, k)
            &&& levels[l][i].id == id
            &&& sits(slots, levels[l][i], s)
        },
    }
}

/// The end of a level is the start of the next.
proof fn lemma_newest_level(
    slots: SlotMap,
    levels: Seq<Seq<TabV>>,
    newest: Option<(u32, u32)>,
    l: int,
    i: int,
    n: int,
)
    requires
        0 <= n < levels.len(),
        newest_found(slots, levels, newest, l, i, n, levels[n].len() as int),
    ensures
        newest_found(slots, levels, newest, l, i, n + 1, 0),
{
    let k = levels[n].len() as int;
    assert forall|m: int, j: int| at(levels, m, j) implies #[trigger] ahead_of(m, j, n + 1, 0)
        == ahead_of(m, j, n, k) by {}
}

/// The tables before position `i` of level `l` sit in slots of their own,
/// and no other slot is used.
spec fn placed_upto(slots: SlotMap, levels: Seq<Seq<TabV>>, l: int, i: int) -> bool {
    &&& forall|m: int, j: int|
        at(levels, m, j) && ahead_of(m, j, l, i) ==> place::housed(slots, #[trigger] levels[m][j])
    &&& forall|m: int, j: int, n: int, k: int, s: u32|
        at(levels, m, j) && at(levels, n, k) && ahead_of(m, j, l, i) && ahead_of(n, k, l, i)
            && #[trigger] sits(slots, levels[m][j], s) && #[trigger] sits(slots, levels[n][k], s)
            ==> m == n && j == k
    &&& forall|s: u32| #[trigger] slots.used(s) ==> taken_upto(slots, levels, l, i, s)
}

/// A table before position `i` of level `l` sits in slot `s`.
spec fn taken_upto(slots: SlotMap, levels: Seq<Seq<TabV>>, l: int, i: int, s: u32) -> bool {
    exists|m: int, j: int|
        at(levels, m, j) && ahead_of(m, j, l, i) && #[trigger] sits(slots, levels[m][j], s)
}

/// A slot that is used already cannot be another table's own.
proof fn lemma_shared(
    a: SlotMap,
    s0: SlotMap,
    levels: Seq<Seq<TabV>>,
    l: int,
    i: int,
    s: u32,
)
    requires
        a.same_layout(&s0),
        placed_upto(a, levels, l, i),
        at(levels, l, i),
        sits(s0, levels[l][i], s),
        a.used(s),
    ensures
        !placeable(s0, levels),
{
    assert(taken_upto(a, levels, l, i, s));
    let (m, j) = choose|m: int, j: int|
        at(levels, m, j) && ahead_of(m, j, l, i) && #[trigger] sits(a, levels[m][j], s);
    place::lemma_sits_same(a, s0, levels[m][j], s);
    assert(sits(s0, levels[m][j], s) && sits(s0, levels[l][i], s));
}

/// One more table marked.
proof fn lemma_mark(
    a: SlotMap,
    b: SlotMap,
    levels: Seq<Seq<TabV>>,
    l: int,
    i: int,
    s: u32,
)
    requires
        a.wf(),
        b.same_layout(&a),
        placed_upto(a, levels, l, i),
        at(levels, l, i),
        sits(a, levels[l][i], s),
        !a.used(s),
        forall|u: u32| #[trigger] b.used(u) == (a.used(u) || u == s),
    ensures
        placed_upto(b, levels, l, i + 1),
{
    let t = levels[l][i];
    assert forall|m: int, j: int| at(levels, m, j) && ahead_of(m, j, l, i + 1) implies place::housed(
        b,
        #[trigger] levels[m][j],
    ) by {
        if m == l && j == i {
            place::lemma_sits_same(b, a, t, s);
            assert(sits(b, t, s) && b.used(s));
        } else {
            assert(ahead_of(m, j, l, i));
            assert(place::housed(a, levels[m][j]));
            let u = choose|u: u32| #[trigger] sits(a, levels[m][j], u) && a.used(u);
            place::lemma_sits_same(b, a, levels[m][j], u);
            assert(sits(b, levels[m][j], u) && b.used(u));
        }
    }
    assert forall|m: int, j: int, n: int, k: int, u: u32|
        at(levels, m, j) && at(levels, n, k) && ahead_of(m, j, l, i + 1) && ahead_of(
            n,
            k,
            l,
            i + 1,
        ) && #[trigger] sits(b, levels[m][j], u) && #[trigger] sits(
            b,
            levels[n][k],
            u,
        ) implies m == n && j == k by {
        place::lemma_sits_same(b, a, levels[m][j], u);
        place::lemma_sits_same(b, a, levels[n][k], u);
        if m == l && j == i {
            a.law_one_slot(u, s, t.first_block, t.block_count as u64);
            if !(n == l && k == i) {
                lemma_upto_used(a, levels, l, i, n, k, s);
            }
        } else if n == l && k == i {
            a.law_one_slot(u, s, t.first_block, t.block_count as u64);
            lemma_upto_used(a, levels, l, i, m, j, s);
        } else {
            assert(ahead_of(m, j, l, i) && ahead_of(n, k, l, i));
            assert(sits(a, levels[m][j], u) && sits(a, levels[n][k], u));
        }
    }
    assert forall|u: u32| #[trigger] b.used(u) implies taken_upto(b, levels, l, i + 1, u) by {
        if u == s {
            place::lemma_sits_same(b, a, t, s);
            assert(at(levels, l, i) && ahead_of(l, i, l, i + 1) && sits(b, levels[l][i], u));
        } else {
            assert(a.used(u));
            assert(taken_upto(a, levels, l, i, u));
            let (m, j) = choose|m: int, j: int|
                at(levels, m, j) && ahead_of(m, j, l, i) && #[trigger] sits(a, levels[m][j], u);
            place::lemma_sits_same(b, a, levels[m][j], u);
            assert(at(levels, m, j) && ahead_of(m, j, l, i + 1) && sits(b, levels[m][j], u));
        }
    }
}

/// The slot of a marked table is used.
proof fn lemma_upto_used(
    a: SlotMap,
    levels: Seq<Seq<TabV>>,
    l: int,
    i: int,
    m: int,
    j: int,
    s: u32,
)
    requires
        a.wf(),
        placed_upto(a, levels, l, i),
        at(levels, m, j),
        ahead_of(m, j, l, i),
        sits(a, levels[m][j], s),
    ensures
        a.used(s),
{
    let t = levels[m][j];
    assert(place::housed(a, t));
    let u = choose|u: u32| #[trigger] sits(a, t, u) && a.used(u);
    a.law_one_slot(u, s, t.first_block, t.block_count as u64);
}

/// The end of a level is the start of the next.
proof fn lemma_next_level(a: SlotMap, levels: Seq<Seq<TabV>>, l: int)
    requires
        0 <= l < levels.len(),
        placed_upto(a, levels, l, levels[l].len() as int),
    ensures
        placed_upto(a, levels, l + 1, 0),
{
    let i = levels[l].len() as int;
    assert forall|m: int, j: int| at(levels, m, j) && ahead_of(m, j, l + 1, 0) implies place::housed(
        a,
        #[trigger] levels[m][j],
    ) by {
        assert(ahead_of(m, j, l, i));
    }
    assert forall|m: int, j: int, n: int, k: int, u: u32|
        at(levels, m, j) && at(levels, n, k) && ahead_of(m, j, l + 1, 0) && ahead_of(
            n,
            k,
            l + 1,
            0,
        ) && #[trigger] sits(a, levels[m][j], u) && #[trigger] sits(
            a,
            levels[n][k],
            u,
        ) implies m == n && j == k by {
        assert(ahead_of(m, j, l, i) && ahead_of(n, k, l, i));
    }
    assert forall|u: u32| #[trigger] a.used(u) implies taken_upto(a, levels, l + 1, 0, u) by {
        assert(taken_upto(a, levels, l, i, u));
        let (m, j) = choose|m: int, j: int|
            at(levels, m, j) && ahead_of(m, j, l, i) && #[trigger] sits(a, levels[m][j], u);
        assert(ahead_of(m, j, l + 1, 0));
    }
}

/// All tables marked.
proof fn lemma_placed_all(a: SlotMap, s0: SlotMap, levels: Seq<Seq<TabV>>)
    requires
        a.same_layout(&s0),
        placed_upto(a, levels, levels.len() as int, 0),
    ensures
        placed(a, levels),
        placeable(s0, levels),
{
    let n = levels.len() as int;
    assert forall|m: int, j: int| at(levels, m, j) implies place::housed(
        a,
        #[trigger] levels[m][j],
    ) && housable(s0, levels[m][j]) by {
        assert(ahead_of(m, j, n, 0));
        assert(place::housed(a, levels[m][j]));
        let u = choose|u: u32| #[trigger] sits(a, levels[m][j], u) && a.used(u);
        place::lemma_sits_same(a, s0, levels[m][j], u);
        assert(sits(s0, levels[m][j], u));
    }
    assert forall|m: int, j: int, k: int, i: int, u: u32|
        at(levels, m, j) && at(levels, k, i) && #[trigger] sits(a, levels[m][j], u)
            && #[trigger] sits(a, levels[k][i], u) implies m == k && j == i by {
        assert(ahead_of(m, j, n, 0) && ahead_of(k, i, n, 0));
    }
    assert forall|m: int, j: int, k: int, i: int, u: u32|
        at(levels, m, j) && at(levels, k, i) && #[trigger] sits(s0, levels[m][j], u)
            && #[trigger] sits(s0, levels[k][i], u) implies m == k && j == i by {
        place::lemma_sits_same(a, s0, levels[m][j], u);
        place::lemma_sits_same(a, s0, levels[k][i], u);
        assert(sits(a, levels[m][j], u) && sits(a, levels[k][i], u));
    }
    assert forall|u: u32| #[trigger] a.used(u) implies place::occupied(a, levels, u) by {
        assert(taken_upto(a, levels, n, 0, u));
        let (m, j) = choose|m: int, j: int|
            at(levels, m, j) && ahead_of(m, j, n, 0) && #[trigger] sits(a, levels[m][j], u);
        assert(at(levels, m, j) && sits(a, levels[m][j], u));
    }
}

/// The manifest that recovery gives: the newest intact copy, or a fresh one
/// with the whole WAL region live.
pub open spec fn recovered_man(found: Recovery, cfg: Config, nlevels: nat) -> Option<ManV> {
    match found {
        Recovery::Found(v) => Some(v),
        Recovery::Fresh => Some(
            (ManV { wal_head: cfg.wal_start, ..fresh_manifest(nlevels) }),
        ),
        Recovery::Corrupt => None,
    }
}

/// What a successful open gives.
pub open spec fn opened_as<
    D: BlockDevice,
    const BLOCK: usize,
    const KEY_MAX: usize,
    const VAL_MAX: usize,
    const CAP: usize,
    const ARENA: usize,
    const LEVELS: usize,
    const TABLES: usize,
    const BLOOM_BYTES: usize,
    const CACHE: usize,
>(
    db: Db<D, BLOCK, KEY_MAX, VAL_MAX, CAP, ARENA, LEVELS, TABLES, BLOOM_BYTES, CACHE>,
    rep: OpenReport,
) -> bool {
    let found = recovery_of(
        db.content(),
        db.config().layout_v(),
        LEVELS,
        TABLES,
        KEY_MAX,
        BLOCK as nat,
    );
    let man = db.man();
    &&& placed(db.slot_map(), man.levels)
    &&& hint_resumed(db.slot_map(), man.levels)
    &&& recovered_man(found, db.config(), LEVELS as nat) == Some(man)
    &&& replay_log(
        db.content(),
        man.wal_head as int,
        db.config().wal_end as int,
        Seq::empty(),
        man.flushed_seq,
        CAP,
        ARENA,
        KEY_MAX,
        VAL_MAX,
    ) matches Ok(p) && {
        &&& db.mem() == p.table
        &&& db.wal_next() == man.wal_head + p.blocks
        &&& rep.recovered_records == p.records
        &&& db.issued_seq() == seq_max(
            seq_max(p.max_seq, man.seq_high),
            top_of(flat(man.levels)),
        )
    }
    &&& rep.max_seq == db.issued_seq()
    &&& rep.l0_tables == man.levels[0].len()
}

/// Why an open is refused.
pub open spec fn open_refused<
    D: BlockDevice,
    const BLOCK: usize,
    const KEY_MAX: usize,
    const VAL_MAX: usize,
    const CAP: usize,
    const ARENA: usize,
    const LEVELS: usize,
    const TABLES: usize,
    const BLOOM_BYTES: usize,
    const CACHE: usize,
>(
    db: Db<D, BLOCK, KEY_MAX, VAL_MAX, CAP, ARENA, LEVELS, TABLES, BLOOM_BYTES, CACHE>,
    e: Error<D::Error>,
) -> bool {
    let cfg = db.config();
    let found = recovery_of(db.content(), cfg.layout_v(), LEVELS, TABLES, KEY_MAX, BLOCK as nat);
    let man = recovered_man(found, cfg, LEVELS as nat);
    match e {
        Error::BadConfig => db.bad_config(),
        Error::CorruptManifest => !db.bad_config() && (man is None || !tables_placeable(
            cfg,
            LEVELS * TABLES,
            man->0.levels,
        )),
        Error::CorruptWal { offset } => !db.bad_config() && (man matches Some(m) && (replay_log(
            db.content(),
            m.wal_head as int,
            cfg.wal_end as int,
            Seq::empty(),
            m.flushed_seq,
            CAP,
            ARENA,
            KEY_MAX,
            VAL_MAX,
        ) matches Err(id) && offset == id as u64)),
        _ => e is Device && !db.bad_config(),
    }
}

/// Every live table can sit in a slot of its own, under the layout of the
/// configured region.
pub open spec fn tables_placeable(cfg: Config, n: int, levels: Seq<Seq<TabV>>) -> bool {
    forall|s: SlotMap|
        #![trigger s.slot_count()]
        s.slot_count() == n && (forall|i: int| #[trigger]
            s.base_of(i) == cfg.tbl_start + i * ((cfg.tbl_end - cfg.tbl_start) / n)) ==> placeable(
            s,
            levels,
        )
}

} // verus!

//! Archive and ingest: moving sealed tables off and back onto the device.

use vstd::prelude::*;

use super::commit::next_copy;
use super::place::{at, lemma_place_remove, sits};
use super::view::tab_sound;
use super::{cached_ok, ids_ok, issued, live_id, Db};
use crate::cache::CachePort;
use crate::device::{same_outside, BlockDevice};
use crate::error::Error;
use crate::keys::KeyBound;
use crate::manifest::{holds_copy, index_of_id, lemma_index_of_id, Manifest, TableRef};
use crate::manifest_format::{ManV, TabV};
use crate::slots::bit_set;
use crate::wal::seq_max;

verus! {

/// A plan to archive (upload, then forget) one sealed `SSTable`.
///
/// Returned by [`Db::archive_plan`]: the table's level and placement
/// record. The caller streams every block in
/// `[table.first_block, table.end_block())` (read through
/// [`Db::device`]) to durable remote storage, confirms the upload, then
/// calls [`Db::archive_commit`] to drop the table from the manifest and
/// reclaim its blocks. This is the flush-to-object-storage primitive: the
/// table's bytes are immutable once sealed, so the upload needs no
/// coordination beyond "all bytes, then commit".
#[derive(Debug, Clone, Copy)]
pub struct ArchivePlan<const KEY_MAX: usize> {
    /// The level holding the table.
    pub level: usize,
    /// The table's placement record: id and block range.
    pub table: TableRef<KEY_MAX>,
}

/// A placement-free table descriptor for re-attach (`ingest_table`).
///
/// Produced by [`ArchivePlan::sealed`] from a table that was archived away.
/// It carries everything needed to validate and graft a copy of the table
/// back into a database (possibly a different one) without any reference
/// to where the table's blocks lived on the source device.
#[derive(Debug, Clone, Copy, PartialEq, Eq)]
pub struct SealedTable<const KEY_MAX: usize> {
    /// The table's original id; ingest preserves it so the table is
    /// idempotent across retries and database copies.
    pub id: u32,
    /// Total blocks: data blocks + rdel blocks + bloom + index + footer.
    pub block_count: u32,
    /// Smallest key in the table.
    pub first_key: KeyBound<KEY_MAX>,
    /// Largest key in the table.
    pub last_key: KeyBound<KEY_MAX>,
    /// Highest sequence number in the table.
    pub max_seq: u64,
    /// Lowest sequence number in the table; cross-checked against the
    /// copied table's footer on ingest (compaction's tombstone-drop rule
    /// relies on it).
    pub min_seq: u64,
    /// Key/value entries (including tombstones); cross-checked against
    /// the copied table's footer on ingest.
    pub entry_count: u32,
    /// Range-tombstone blocks of the table; cross-checked against the
    /// copied table's footer on ingest, and needed to locate the data
    /// section when relocating the table.
    pub rdel_blocks: u32,
}

impl<const KEY_MAX: usize> SealedTable<KEY_MAX> {
    /// The bounds are well formed.
    pub open spec fn wf(&self) -> bool {
        self.first_key.wf() && self.last_key.wf()
    }

    /// The table's reference where its blocks start at `base`.
    pub open spec fn placed_at(&self, base: u64) -> TabV {
        TabV {
            id: self.id,
            first_block: base,
            block_count: self.block_count,
            first_key: self.first_key@,
            last_key: self.last_key@,
            max_seq: self.max_seq,
            min_seq: self.min_seq,
            entry_count: self.entry_count,
            rdel_blocks: self.rdel_blocks,
        }
    }
}

impl<const KEY_MAX: usize> ArchivePlan<KEY_MAX> {
    /// Strips this plan down to its placement-free sealed descriptor.
    ///
    /// The descriptor is a pure value: it can cross a device boundary
    /// (e.g. to cold storage) and later re-enter through
    /// [`Db::ingest_table`].
    #[must_use]
    pub fn sealed(&self) -> (r: SealedTable<KEY_MAX>)
        ensures
            r.placed_at(self.table.first_block) == self.table@,
            self.table.wf() ==> r.wf(),
    {
        SealedTable {
            id: self.table.id,
            block_count: self.table.block_count,
            first_key: self.table.first_key,
            last_key: self.table.last_key,
            max_seq: self.table.max_seq,
            min_seq: self.table.min_seq,
            entry_count: self.table.entry_count,
            rdel_blocks: self.table.rdel_blocks,
        }
    }
}

/// The levels without table `p` of level `l`.
pub open spec fn dropped(levels: Seq<Seq<TabV>>, l: int, p: int) -> Seq<Seq<TabV>> {
    levels.update(l, levels[l].remove(p))
}

/// Ids stay apart where a table is dropped.
pub(super) proof fn lemma_dropped_ids(levels: Seq<Seq<TabV>>, l: int, p: int, next_id: u32)
    requires
        ids_ok(levels, next_id),
        at(levels, l, p),
    ensures
        ids_ok(dropped(levels, l, p), next_id),
        forall|m: int, i: int|
            at(dropped(levels, l, p), m, i) ==> levels[m].contains(
                #[trigger] dropped(levels, l, p)[m][i],
            ) && dropped(levels, l, p)[m][i].id != levels[l][p].id,
        forall|m: int, i: int|
            at(levels, m, i) && (#[trigger] levels[m][i]).id != levels[l][p].id ==> dropped(
                levels,
                l,
                p,
            )[m].contains(levels[m][i]),
{
    let ls = dropped(levels, l, p);
    assert forall|m: int, i: int| at(ls, m, i) implies levels[m].contains(#[trigger] ls[m][i])
        && ls[m][i].id != levels[l][p].id && issued(ls[m][i].id, next_id) by {
        let k = if m == l && i >= p {
            i + 1
        } else {
            i
        };
        assert(at(levels, m, k) && ls[m][i] == levels[m][k]);
        assert(issued(levels[m][k].id, next_id));
        if levels[m][k].id == levels[l][p].id {
            assert(m == l && k == p);
        }
    }
    assert forall|m: int, i: int, n: int, j: int|
        at(ls, m, i) && at(ls, n, j) && (#[trigger] ls[m][i]).id == (
        #[trigger] ls[n][j]).id implies m == n && i == j by {
        let k = if m == l && i >= p {
            i + 1
        } else {
            i
        };
        let h = if n == l && j >= p {
            j + 1
        } else {
            j
        };
        assert(at(levels, m, k) && ls[m][i] == levels[m][k]);
        assert(at(levels, n, h) && ls[n][j] == levels[n][h]);
    }
    assert forall|m: int, i: int|
        at(levels, m, i) && (#[trigger] levels[m][i]).id != levels[l][p].id implies ls[m].contains(
        levels[m][i],
    ) by {
        let k = if m == l && i > p {
            i - 1
        } else {
            i
        };
        assert(ls[m][k] == levels[m][i]);
    }
}

impl<
    D: BlockDevice,
    const BLOCK: usize,
    const KEY_MAX: usize,
    const VAL_MAX: usize,
    const CAP: usize,
    const ARENA: usize,
    const LEVELS: usize,
    const TABLES: usize,
    const BLOOM_BYTES: usize,
    const CACHE: usize,
> Db<D, BLOCK, KEY_MAX, VAL_MAX, CAP, ARENA, LEVELS, TABLES, BLOOM_BYTES, CACHE> {
    /// Where table `id` stands in `level`.
    pub open spec fn archive_at(&self, level: int, id: u32) -> Option<int> {
        if 0 <= level < LEVELS && index_of_id(self.man().levels[level], id)
            < self.man().levels[level].len() {
            Some(index_of_id(self.man().levels[level], id))
        } else {
            None
        }
    }

    /// Plans the archival of one sealed table: returns its level and block
    /// range for upload, or `None` when `table_id` is not at `level`
    /// (already archived, compacted away, or never existed).
    ///
    /// The caller protocol:
    ///
    /// 1. Stream every block in `[plan.table.first_block,
    ///    plan.table.end_block())` (read through [`Db::device`]) to the
    ///    remote sink.
    /// 2. Confirm the bytes are durably stored remotely (the sink is the
    ///    caller's network code).
    /// 3. Call [`Db::archive_commit`].
    ///
    /// Crash order is what makes this safe: a crash anywhere before the
    /// commit leaves the table in the manifest, so the upload simply
    /// repeats; the sink must therefore be idempotent per table id
    /// (re-uploading a fully uploaded table is always allowed). A crash
    /// during the commit is decided by the atomic manifest write: old copy
    /// (table still local, re-upload) or new copy (table gone, bytes
    /// already remote). The commit never runs before the upload is
    /// confirmed, so no crash can lose acknowledged data.
    ///
    /// Tombstone rule: the commit drops the table's tombstones from local
    /// view. If another table holds an older version of a key the archived
    /// table deleted, that older version would become visible locally
    /// again; [`archive_commit`](Db::archive_commit) refuses such a table.
    /// With deletes in the workload, archive only from the bottommost level
    /// (nothing is deeper, so nothing can resurrect); insert-only workloads
    /// (sensor logs with timestamp keys) are safe from any level.
    #[must_use]
    pub fn archive_plan(&self, level: usize, table_id: u32) -> (r: Option<ArchivePlan<KEY_MAX>>)
        requires
            self.wf(),
        ensures
            match r {
                Some(p) => {
                    &&& p.level == level
                    &&& p.table.wf()
                    &&& self.archive_at(level as int, table_id) matches Some(i) && p.table@
                        == self.man().levels[level as int][i]
                    &&& p.table.id == table_id
                },
                None => self.archive_at(level as int, table_id) is None,
            },
    {
        proof {
            self.lemma_wf();
        }
        let tables: &[TableRef<KEY_MAX>] = match self.manifest.level(level) {
            Some(ts) => ts,
            None => {
                return None;
            },
        };
        let ghost views = self.man().levels[level as int];
        let mut i: usize = 0;
        proof {
            lemma_index_of_id(views, table_id);
        }
        while i < tables.len()
            invariant
                i <= tables@.len(),
                level < LEVELS,
                views == self.man().levels[level as int],
                crate::manifest::tab_views(tables@) == views,
                crate::manifest::refs_wf(tables@),
                0 <= index_of_id(views, table_id) <= views.len(),
                index_of_id(views, table_id) < views.len() ==> views[index_of_id(
                    views,
                    table_id,
                )].id == table_id,
                forall|k: int|
                    0 <= k < index_of_id(views, table_id) ==> (#[trigger] views[k]).id != table_id,
                forall|k: int| 0 <= k < i ==> (#[trigger] views[k]).id != table_id,
            decreases tables@.len() - i,
        {
            assert(views[i as int] == tables@[i as int]@);
            assert(tables@[i as int].wf());
            if tables[i].id == table_id {
                assert(index_of_id(views, table_id) == i) by {
                    if index_of_id(views, table_id) < i {
                        assert(views[index_of_id(views, table_id)].id != table_id);
                    }
                }
                return Some(ArchivePlan { level, table: tables[i] });
            }
            i = i + 1;
        }
        None
    }

    /// The compaction job in flight reads table `t`.
    pub open spec fn job_takes(&self, t: TabV) -> bool {
        self.job().0 && exists|s: u32| #[trigger]
            sits(self.slot_map(), t, s) && bit_set(self.job_slots(), s)
    }

    /// The manifest after an archival of table `i` of `level`.
    pub open spec fn archive_man(&self, level: int, i: int) -> ManV {
        let m = self.man();
        next_copy(
            ManV {
                levels: dropped(m.levels, level, i),
                seq_high: seq_max(self.issued_seq(), m.seq_high),
                ..m
            },
        )
    }

    /// What an archival of table `i` of `level` does: the table leaves in
    /// one manifest commit, and its slot is free. A job that reads it ends.
    pub open spec fn archived(
        a: &Self,
        b: &Self,
        level: int,
        i: int,
        r: Result<bool, Error<D::Error>>,
    ) -> bool {
        let t = a.man().levels[level][i];
        &&& b.mem() == a.mem()
        &&& b.issued_seq() == a.issued_seq()
        &&& b.snaps() == a.snaps()
        &&& b.is_opened()
        &&& b.config() == a.config()
        &&& b.wal_next() == a.wal_next()
        &&& b.job() == (a.job().0 && !a.job_takes(t), a.job().1)
        &&& b.job().0 ==> b.job_slots() == a.job_slots()
        &&& b.slot_map().same_layout(&a.slot_map())
        &&& b.slot_map().next_hint() == a.slot_map().next_hint()
        &&& forall|s: u32| #[trigger]
            b.slot_map().reserved(s) == (a.slot_map().reserved(s) && !a.job_takes(t))
        &&& same_outside(
            a.content(),
            b.content(),
            a.copy_at(),
            a.copy_at() + Self::stride(),
        )
        &&& match r {
            Ok(gone) => {
                &&& gone
                &&& a.man().seq < u64::MAX
                &&& b.man() == a.archive_man(level, i)
                &&& forall|s: u32| #[trigger]
                    b.slot_map().used(s) == (a.slot_map().used(s) && !sits(a.slot_map(), t, s))
                &&& forall|k: (u32, u64)| #[trigger]
                    b.images().dom().contains(k) ==> k.0 != t.id
                &&& holds_copy(b.content(), b.man(), a.copy_at(), BLOCK as nat)
                &&& b.kept() == b.content()
            },
            Err(e) => {
                &&& e is Device || (e == Error::<D::Error>::NoSpace && a.man().seq == u64::MAX)
                &&& b.man() == a.man()
                &&& forall|s: u32| #[trigger] b.slot_map().used(s) == a.slot_map().used(s)
            },
        }
    }

    /// Commits an archival: drops the table from the manifest in one
    /// atomic manifest write and frees its table slot.
    ///
    /// Call only after the table's bytes are durably stored remotely: once
    /// this returns `Ok(true)` the data is gone locally by design. Returns
    /// `Ok(false)` when the table is no longer at `level` (idempotent: safe
    /// to retry after a crash that may or may not have committed, or when a
    /// concurrent compaction already merged it away; the uploaded bytes are
    /// still a valid copy of that data).
    ///
    /// Archiving an input of the in-flight compaction job aborts the job
    /// (its merge still reads the table); a later `compact_step` selects
    /// afresh.
    ///
    /// # Errors
    ///
    /// [`Error::NotOpen`] before [`open`](Db::open).
    /// [`Error::WouldResurrect`] when dropping the table could bring a
    /// deleted value back in the live view or a live snapshot: the check
    /// reasons over every other table, not just deeper levels, because a
    /// same-level, shallower, or re-ingested older copy can resurrect a
    /// value too. [`Error::CorruptBlock`] on a damaged table.
    /// [`Error::Device`] on I/O failure. The manifest write is atomic:
    /// either the table is gone (all of it) or it is still fully present.
    #[verifier::rlimit(40)]
    pub fn archive_commit(&mut self, level: usize, table_id: u32) -> (r: Result<
        bool,
        Error<D::Error>,
    >)
        requires
            old(self).wf(),
        ensures
            final(self).wf(),
            old(self).sound() ==> final(self).sound(),
            if !old(self).is_opened() {
                r == Err::<bool, Error<D::Error>>(Error::NotOpen) && *final(self) == *old(self)
            } else {
                match old(self).archive_at(level as int, table_id) {
                    None => r == Ok::<bool, Error<D::Error>>(false) && *final(self) == *old(self),
                    Some(i) => {
                        let t = old(self).man().levels[level as int][i];
                        ||| {
                            &&& final(self).same_state(old(self))
                            &&& r matches Err(e) && (Self::revival_error(e) || e == (Error::<
                                D::Error,
                            >::WouldResurrect { table: table_id }))
                            &&& r matches Err(e) && (old(self).sound() ==> e is Device || (
                            old(self).would_resurrect(t) && e == (Error::<
                                D::Error,
                            >::WouldResurrect { table: table_id })))
                        }
                        ||| {
                            &&& Self::archived(old(self), final(self), level as int, i, r)
                            &&& old(self).sound() ==> !old(self).would_resurrect(t)
                        }
                    },
                }
            },
    {
        match self.ensure_open() {
            Ok(()) => {},
            Err(e) => {
                return Err(e);
            },
        }
        proof {
            self.lemma_wf();
        }
        let plan: ArchivePlan<KEY_MAX> = match self.archive_plan(level, table_id) {
            Some(p) => p,
            None => {
                return Ok(false);
            },
        };
        let ghost i = self.archive_at(level as int, table_id)->0;
        let ghost levels = self.man().levels;
        let ghost t = plan.table@;
        proof {
            lemma_index_of_id(levels[level as int], table_id);
            assert(at(levels, level as int, i));
            if self.sound() {
                assert(tab_sound(self.content(), levels[level as int][i], Self::dims()));
            }
        }
        // Refuse to remove a table whose deletion would resurrect a
        // shadowed value in any live view. Pure reads: the database is
        // untouched on refusal.
        match self.check_no_resurrection(&plan.table) {
            Ok(()) => {},
            Err(e) => {
                return Err(e);
            },
        }
        let ghost a = *self;
        let r = self.drop_table(level, &plan.table, Ghost(i));
        proof {
            Self::lemma_archived_from(old(self), &a, self, level as int, i, r);
        }
        r
    }

    /// An archival from a state that differs in buffers only.
    proof fn lemma_archived_from(
        a: &Self,
        m: &Self,
        b: &Self,
        level: int,
        i: int,
        r: Result<bool, Error<D::Error>>,
    )
        requires
            m.same_state(a),
            Self::archived(m, b, level, i, r),
        ensures
            Self::archived(a, b, level, i, r),
    {
        let t = a.man().levels[level][i];
        assert(m.copy_at() == a.copy_at());
        assert(m.job_takes(t) == a.job_takes(t)) by {
            if a.job_takes(t) {
                let s = choose|s: u32| #[trigger]
                    sits(a.slot_map(), t, s) && bit_set(a.job_slots(), s);
                assert(sits(m.slot_map(), t, s));
            }
        }
    }

    /// Drops the table from the manifest and frees its slot.
    fn drop_table(
        &mut self,
        level: usize,
        table: &TableRef<KEY_MAX>,
        Ghost(i): Ghost<int>,
    ) -> (r: Result<bool, Error<D::Error>>)
        requires
            old(self).wf(),
            old(self).is_opened(),
            old(self).archive_at(level as int, table.id) == Some(i),
            table@ == old(self).man().levels[level as int][i],
        ensures
            final(self).wf(),
            old(self).sound() ==> final(self).sound(),
            Self::archived(old(self), final(self), level as int, i, r),
    {
        let ghost a = *self;
        let ghost t = table@;
        let ghost levels = self.man().levels;
        let id: u32 = table.id;
        proof {
            self.lemma_wf();
            self.slots.lemma_counts();
            lemma_index_of_id(levels[level as int], id);
        }
        let slot: Option<u32> = self.slot_of(table);
        let hit: bool = match slot {
            Some(s) => self.job_inputs & (1u64 << s) != 0,
            None => false,
        };
        proof {
            assert(hit == exists|s: u32| #[trigger]
                sits(a.slot_map(), t, s) && bit_set(a.job_slots(), s)) by {
                if exists|s: u32| #[trigger]
                    sits(a.slot_map(), t, s) && bit_set(a.job_slots(), s) {
                    let s = choose|s: u32| #[trigger]
                        sits(a.slot_map(), t, s) && bit_set(a.job_slots(), s);
                    a.slots.law_one_slot(s, slot->0, t.first_block, t.block_count as u64);
                }
            }
        }
        if hit {
            self.abort_job();
        }
        let ghost mid = *self;
        let mut staged: Manifest<LEVELS, TABLES, KEY_MAX> = self.manifest.duplicate();
        match staged.remove_table_from_level::<D::Error>(level, id) {
            Ok(_) => {},
            Err(e) => {
                return Err(e);
            },
        }
        staged.raise_seq_high(self.next_seq);
        assert(next_copy(staged@) == a.archive_man(level as int, i));
        match self.commit_manifest(staged) {
            Ok(()) => {},
            Err(e) => {
                proof {
                    Self::lemma_open_kept(&mid, self);
                    if mid.sound() {
                        Self::lemma_copy_reads(&mid, self);
                    }
                }
                return Err(e);
            },
        }
        let ghost done = *self;
        // Commit point passed: free the table's slot strictly after the
        // visibility point. The table's blocks are unreachable now; drop
        // its cache entries so their slots serve the hot set (an id comes
        // back only when the table itself is ingested again).
        CachePort::invalidate_table(&mut self.cache, id);
        match slot {
            Some(s) => {
                self.slots.free(s);
            },
            None => {},
        }
        proof {
            assert(self.snaps() == a.snaps());
            assert forall|s: u32| #[trigger]
                self.slots.used(s) == (a.slots.used(s) && !sits(a.slot_map(), t, s)) by {
                assert(mid.slots.used(s) == a.slots.used(s));
                super::place::lemma_sits_same(mid.slots, a.slots, t, s);
                if sits(a.slot_map(), t, s) {
                    assert(slot is Some);
                    a.slots.law_one_slot(s, slot->0, t.first_block, t.block_count as u64);
                }
            }
            assert(self.slots.same_layout(&a.slots));
            assert(self.open_wf()) by {
                assert(self.slots_laid()) by {
                    assert(self.slots.base_of(0) == a.slots.base_of(0));
                    assert(self.slots.base_of(LEVELS * TABLES) == a.slots.base_of(
                        LEVELS * TABLES,
                    ));
                }
                assert forall|x: u32| !(self.slots.used(x) && #[trigger] self.slots.reserved(x)) by {
                    assert(mid.slots.reserved(x) == self.slots.reserved(x));
                    assert(mid.slots.used(x) == a.slots.used(x));
                }
                if !self.job().0 {
                    assert forall|x: u32| !#[trigger] self.slots.reserved(x) by {
                        assert(mid.slots.reserved(x) == self.slots.reserved(x));
                    }
                }
            }
            assert forall|k: (u32, u64)| #[trigger] self.images().dom().contains(k) implies k.0
                != t.id by {
                if k.0 == t.id {
                    assert(!self.images().dom().contains((id, k.1)));
                }
            }
            if a.sound() {
                Self::lemma_dropped_sound(&mid, self, level as int, i);
            }
        }
        Ok(true)
    }

    /// The other tables stay intact where one is dropped.
    proof fn lemma_dropped_sound(a: &Self, b: &Self, level: int, i: int)
        requires
            a.wf(),
            a.sound(),
            at(a.man().levels, level, i),
            b.is_opened(),
            b.mem() == a.mem(),
            b.issued_seq() == a.issued_seq(),
            b.config() == a.config(),
            b.wal_next() == a.wal_next(),
            b.man() == a.archive_man(level, i),
            b.slot_map().same_layout(&a.slot_map()),
            forall|s: u32| #[trigger]
                b.slot_map().used(s) == (a.slot_map().used(s) && !sits(
                    a.slot_map(),
                    a.man().levels[level][i],
                    s,
                )),
            forall|k: (u32, u64)| #[trigger]
                b.images().dom().contains(k) ==> k.0 != a.man().levels[level][i].id
                    && a.images().dom().contains(k) && b.images()[k] == a.images()[k],
            same_outside(
                a.content(),
                b.content(),
                a.copy_at(),
                a.copy_at() + Self::stride(),
            ),
        ensures
            b.sound(),
    {
        reveal(Db::tidy);
        let levels = a.man().levels;
        let ls = b.man().levels;
        let t = levels[level][i];
        let d = Self::dims();
        let id = a.man().next_table_id;
        a.lemma_wf();
        a.lemma_copy_at();
        lemma_dropped_ids(levels, level, i, id);
        super::place::lemma_tables_kept(
            a.slot_map(),
            a.images(),
            a.content(),
            b.content(),
            levels,
            d,
            a.copy_at(),
            a.copy_at() + Self::stride(),
        );
        assert(super::place::housed(a.slot_map(), levels[level][i]));
        let s = choose|s: u32| #[trigger] sits(a.slot_map(), t, s) && a.slot_map().used(s);
        assert forall|x: u32| #[trigger]
            b.slot_map().used(x) == (a.slot_map().used(x) && x != s) by {
            if sits(a.slot_map(), t, x) {
                a.slot_map().law_one_slot(x, s, t.first_block, t.block_count as u64);
            }
        }
        lemma_place_remove(a.slot_map(), b.slot_map(), levels, level, i, s);
        super::place::lemma_top_flat(levels, a.issued_seq());
        super::place::lemma_top_flat(ls, a.issued_seq());
        assert forall|m: int, x: int| at(ls, m, x) implies tab_sound(
            b.content(),
            #[trigger] ls[m][x],
            d,
        ) && cached_ok(b.images(), b.content(), ls[m][x]) && ls[m][x].max_seq
            <= a.issued_seq() by {
            let u = ls[m][x];
            assert(levels[m].contains(u));
            let k = choose|k: int| 0 <= k < levels[m].len() && levels[m][k] == u;
            assert(at(levels, m, k));
            assert(tab_sound(b.content(), levels[m][k], d) && cached_ok(
                a.images(),
                b.content(),
                levels[m][k],
            ));
            assert forall|y: u64| #[trigger] b.images().dom().contains((u.id, y)) implies
                u.first_block <= y < u.first_block + u.block_count && b.images()[(u.id, y)]
                == b.content()[y] by {
                assert(a.images().dom().contains((u.id, y)));
            }
        }
        assert forall|k: (u32, u64)| #[trigger] b.images().dom().contains(k) implies live_id(
            ls,
            k.0,
        ) by {
            assert(a.images().dom().contains(k));
            assert(live_id(levels, k.0));
            let (m, x) = choose|m: int, x: int|
                at(levels, m, x) && (#[trigger] levels[m][x]).id == k.0;
            assert(ls[m].contains(levels[m][x]));
            let y = choose|y: int| 0 <= y < ls[m].len() && ls[m][y] == levels[m][x];
            assert(at(ls, m, y) && ls[m][y].id == k.0);
        }
    }
}

} // verus!

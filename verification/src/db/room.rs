//! Room in the table region: free slots, the compaction reserve, and the
//! handle's gauges.

use vstd::prelude::*;

use super::place::lemma_place_same;
use super::{Db, SlotStats};
use crate::cache::CacheStats;
use crate::device::BlockDevice;
use crate::error::Error;
use crate::manifest::{refs_wf, tab_views, TableRef};
use crate::manifest_format::TabV;
use crate::slots::SlotMap;

verus! {

/// Some level above the bottommost holds `tables` tables or more.
pub open spec fn some_level_full(levels: Seq<Seq<TabV>>, tables: int) -> bool {
    exists|l: int| 0 <= l < levels.len() - 1 && (#[trigger] levels[l]).len() >= tables
}

/// Slots that are free or reserved.
pub open spec fn headroom(s: SlotMap) -> int {
    s.slot_count() - s.taken_count() + s.reserved_count()
}

/// `slot` is the next free slot, in turn.
pub open spec fn next_free(s: SlotMap, slot: u32) -> bool {
    &&& s.is_free(slot)
    &&& exists|k: int|
        0 <= k < s.slot_count() && slot == #[trigger] s.probe(k) && forall|j: int|
            0 <= j < k ==> !s.is_free(#[trigger] s.probe(j))
}

/// The search for a free slot begins where it did, or past the slot that it
/// would have given.
pub open spec fn hint_moved(a: SlotMap, b: SlotMap) -> bool {
    ||| b.next_hint() == a.next_hint()
    ||| exists|s: u32| #[trigger]
        next_free(a, s) && b.next_hint() == (s + 1) % (a.slot_count() as int)
}

impl<
    D: BlockDevice,
    const BLOCK: usize,
    const KEY_MAX: usize,
    const VAL_MAX: usize,
    const CAP: usize,
    const ARENA: usize,
    const LEVELS: usize,
    const TABLES: usize,
    const BLOOM_BYTES: usize,
    const CACHE: usize,
> Db<D, BLOCK, KEY_MAX, VAL_MAX, CAP, ARENA, LEVELS, TABLES, BLOOM_BYTES, CACHE> {
    /// Slots of headroom compaction keeps for itself, free or already
    /// reserved by the running job, which flush and ingest never take:
    /// the output slot a job writes into, plus one slot of room for the
    /// sources' data, which drains into outputs before the sources retire.
    /// A single-level tree never compacts.
    pub open spec fn reserve() -> int {
        if LEVELS >= 2 {
            2
        } else {
            0
        }
    }

    /// The error for "no room for another table".
    pub open spec fn no_room_error(&self) -> Error<D::Error> {
        if some_level_full(self.man().levels, TABLES as int) {
            Error::NeedsCompaction
        } else {
            Error::RegionFull
        }
    }

    /// A slot is free beyond the compaction reserve.
    pub open spec fn has_room(&self) -> bool {
        &&& headroom(self.slot_map()) > Self::reserve()
        &&& exists|i: u32| #[trigger] self.slot_map().is_free(i)
    }

    /// Reports whether [`compact_step`](Db::compact_step) would select a
    /// compaction job right now: some level above the bottommost holds
    /// `>= TABLES` tables. Unlike [`Progress::Done`](crate::Progress::Done),
    /// which a finished job also returns, this distinguishes "a job just
    /// finished, more may be pending" from "nothing to do": firmware idle
    /// loops use it to decide whether another `compact_step` is worthwhile.
    #[must_use]
    pub fn compaction_pending(&self) -> (r: bool)
        requires
            self.wf(),
        ensures
            r == some_level_full(self.man().levels, TABLES as int),
    {
        proof {
            self.manifest.lemma_wf();
        }
        if LEVELS < 2 {
            return false;
        }
        let ghost levels = self.man().levels;
        let mut lvl: usize = LEVELS - 1;
        while lvl > 0
            invariant
                self.wf(),
                levels == self.man().levels,
                levels.len() == LEVELS,
                lvl <= LEVELS - 1,
                forall|l: int| lvl <= l < LEVELS - 1 ==> (#[trigger] levels[l]).len() < TABLES,
            decreases lvl,
        {
            lvl = lvl - 1;
            match self.manifest.level(lvl) {
                Some(tables) => {
                    assert(tab_views(tables@).len() == tables@.len());
                    if tables.len() >= TABLES {
                        assert(levels[lvl as int].len() >= TABLES);
                        return true;
                    }
                },
                None => {},
            }
        }
        false
    }

    /// Picks the next free slot for a table of `blocks` blocks, without
    /// claiming it: callers claim a slot only after the manifest commit
    /// that makes its table live, so an error mid-write leaks nothing.
    /// Compaction keeps a reserve of slots that flush and ingest never
    /// take.
    ///
    /// # Errors
    ///
    /// [`Error::TableTooLarge`] when the table is larger than a slot;
    /// [`Error::NeedsCompaction`] when no slot is free beyond the reserve
    /// but compaction has work that frees slots; [`Error::RegionFull`] when
    /// it has none.
    pub(super) fn free_slot_for(&self, blocks: u64) -> (r: Result<u32, Error<D::Error>>)
        requires
            self.wf(),
        ensures
            match r {
                Ok(s) => {
                    &&& blocks <= self.slot_map().blocks_per_slot()
                    &&& self.has_room()
                    &&& next_free(self.slot_map(), s)
                },
                Err(e) => if blocks > self.slot_map().blocks_per_slot() {
                    e == Error::<D::Error>::TableTooLarge
                } else {
                    !self.has_room() && e == self.no_room_error()
                },
            },
    {
        if blocks > self.slots.slot_blocks() {
            return Err(Error::TableTooLarge);
        }
        let reserve: u32 = if LEVELS >= 2 {
            2
        } else {
            0
        };
        proof {
            self.slots.lemma_counts();
        }
        let room: u32 = self.slots.free_slots() + self.slots.reserved_slots();
        if room > reserve {
            match self.slots.find_free() {
                Some(s) => {
                    return Ok(s);
                },
                None => {},
            }
        }
        Err(self.no_room())
    }

    /// The error for "no room for another table":
    /// [`Error::NeedsCompaction`] while compaction has work that frees room,
    /// else [`Error::RegionFull`]. Callers that retry after compacting
    /// therefore never spin: `NeedsCompaction` implies
    /// [`compaction_pending`](Self::compaction_pending).
    pub(super) fn no_room(&self) -> (r: Error<D::Error>)
        requires
            self.wf(),
        ensures
            r == self.no_room_error(),
    {
        if self.compaction_pending() {
            Error::NeedsCompaction
        } else {
            Error::RegionFull
        }
    }

    /// Abandons the in-flight compaction job, if any: its reserved output
    /// slot returns to the free set and its scratch goes stale (reset on
    /// its next `compact_step`). What the job already committed stays: a
    /// consistent tree whose inputs were retired or narrowed past each
    /// committed output, and a later select merges on from there.
    pub(super) fn abort_job(&mut self)
        requires
            old(self).wf(),
        ensures
            final(self).wf(),
            final(self).but_job(old(self)),
            final(self).images() == old(self).images(),
            !final(self).job().0,
            final(self).job().1 == old(self).job().1,
            final(self).slot_map().same_layout(&old(self).slot_map()),
            final(self).slot_map().next_hint() == old(self).slot_map().next_hint(),
            forall|i: u32| #[trigger]
                final(self).slot_map().used(i) == old(self).slot_map().used(i),
            old(self).is_opened() ==> forall|i: u32| !#[trigger] final(self).slot_map().reserved(i),
            !old(self).job().0 ==> *final(self) == *old(self),
            old(self).tidy() ==> final(self).tidy(),
            old(self).seated() ==> final(self).seated(),
            old(self).sound() ==> final(self).sound() && final(self).reads_as(old(self)),
    {
        if self.job_active {
            let ghost before = *self;
            self.slots.release_all();
            self.job_active = false;
            self.job_inputs = 0;
            proof {
                Self::lemma_job_kept(&before, self);
                if before.tidy() {
                    Self::lemma_tidy_same(&before, self);
                }
                if before.seated() {
                    Self::lemma_seated_same(&before, self);
                }
            }
        }
    }

    /// Tables of their own slots and ids are in slots of their own.
    pub proof fn lemma_tidy_seated(&self)
        ensures
            self.tidy() == (self.seated() && self.ids_apart()),
    {
        reveal(Db::tidy);
        reveal(Db::seated);
    }

    /// Live tables stay in their slots where the used slots stay.
    pub proof fn lemma_seated_same(a: &Self, b: &Self)
        requires
            a.seated(),
            b.man().levels == a.man().levels,
            b.slot_map().same_layout(&a.slot_map()),
            forall|i: u32| #[trigger] b.slot_map().used(i) == a.slot_map().used(i),
        ensures
            b.seated(),
    {
        reveal(Db::seated);
        lemma_place_same(a.slot_map(), b.slot_map(), a.man().levels);
    }

    /// Live tables stay in their slots, under their ids, where the used
    /// slots stay.
    pub proof fn lemma_tidy_same(a: &Self, b: &Self)
        requires
            a.tidy(),
            b.man().levels == a.man().levels,
            b.man().next_table_id == a.man().next_table_id,
            b.slot_map().same_layout(&a.slot_map()),
            forall|i: u32| #[trigger] b.slot_map().used(i) == a.slot_map().used(i),
        ensures
            b.tidy(),
    {
        reveal(Db::tidy);
        lemma_place_same(a.slot_map(), b.slot_map(), a.man().levels);
    }

    /// Nothing but the job and its reservations differ.
    pub open spec fn but_job(&self, o: &Self) -> bool {
        &&& self.content() == o.content()
        &&& self.synced_since(o, 0, 0)
        &&& self.mem() == o.mem()
        &&& self.man() == o.man()
        &&& self.issued_seq() == o.issued_seq()
        &&& self.snaps() == o.snaps()
        &&& self.is_opened() == o.is_opened()
        &&& self.config() == o.config()
        &&& self.wal_next() == o.wal_next()
    }

    /// Slot reservations and the job do not bear on the rest.
    pub(super) proof fn lemma_job_kept(a: &Self, b: &Self)
        requires
            a.wf(),
            b.slots.wf(),
            b.slots.same_layout(&a.slots),
            forall|i: u32| #[trigger] b.slots.used(i) == a.slots.used(i),
            b.slots.disjoint(),
            !b.job_active ==> forall|i: u32| !#[trigger] b.slots.reserved(i),
            *b == (Db {
                slots: b.slots,
                job_active: b.job_active,
                job_gen: b.job_gen,
                job_inputs: b.job_inputs,
                ..*a
            }),
        ensures
            b.wf(),
    {
        if a.is_opened() {
            assert(a.open_wf());
            assert(b.slots_laid()) by {
                assert(b.slots.base_of(0) == a.slots.base_of(0));
                assert(b.slots.base_of(LEVELS * TABLES) == a.slots.base_of(LEVELS * TABLES));
            }
            assert(b.snaps() == a.snaps());
        }
    }

    /// The slot of live table `t` (`None` only for a ref the slot map
    /// never accepted, which `open()` rules out).
    pub(super) fn slot_of(&self, t: &TableRef<KEY_MAX>) -> (r: Option<u32>)
        requires
            self.wf(),
        ensures
            match r {
                Some(s) => super::place::sits(self.slot_map(), t@, s),
                None => forall|s: u32| !#[trigger] super::place::sits(self.slot_map(), t@, s),
            },
    {
        let r = self.slots.slot_of(t.first_block, t.block_count as u64);
        proof {
            if r is None {
                assert forall|s: u32| !#[trigger] super::place::sits(self.slot_map(), t@, s) by {
                    assert(!self.slots.holds(s, t.first_block, t.block_count as u64));
                }
            }
        }
        r
    }

    /// Table-region occupancy: how many table slots are used, reserved by
    /// an in-flight compaction job, or free. Zeroed before
    /// [`open`](Db::open).
    #[must_use]
    pub fn slot_stats(&self) -> (r: SlotStats)
        requires
            self.wf(),
        ensures
            r.slots == self.slot_map().slot_count(),
            r.slot_blocks == self.slot_map().blocks_per_slot(),
            r.used == self.slot_map().used_count(),
            r.reserved == self.slot_map().reserved_count(),
            r.free == self.slot_map().slot_count() - self.slot_map().taken_count(),
            self.is_opened() ==> r.used + r.reserved + r.free == r.slots,
    {
        proof {
            if self.is_opened() {
                assert(self.open_wf());
                self.slots.law_slot_conservation();
            }
        }
        SlotStats {
            slots: self.slots.slots(),
            slot_blocks: self.slots.slot_blocks(),
            used: self.slots.used_slots(),
            reserved: self.slots.reserved_slots(),
            free: self.slots.free_slots(),
        }
    }

    /// Block-cache counters: hits, misses, occupancy. Lets callers prove
    /// the cache is earning its RAM instead of trusting us.
    #[must_use]
    pub fn cache_stats(&self) -> (r: CacheStats)
        requires
            self.wf(),
        ensures
            r == self.cache_counts(),
    {
        self.cache.stats()
    }

    /// The live table refs at `level`, oldest first: the archive
    /// candidate list. Returns `None` for an out-of-range level.
    #[must_use]
    pub fn level_tables(&self, level: usize) -> (r: Option<&[TableRef<KEY_MAX>]>)
        requires
            self.wf(),
        ensures
            match r {
                Some(ts) => {
                    &&& level < LEVELS
                    &&& tab_views(ts@) == self.man().levels[level as int]
                    &&& refs_wf(ts@)
                },
                None => level >= LEVELS,
            },
    {
        self.manifest.level(level)
    }
}

} // verus!

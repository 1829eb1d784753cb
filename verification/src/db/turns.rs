//! What comes round in turn: table slots, manifest copies and the WAL.

use vstd::prelude::*;

use super::place::{at, sits};
use super::room::next_free;
use super::Db;
use crate::device::BlockDevice;
use crate::error::Error;
use crate::slots::SlotMap;

verus! {

/// A new table takes the first free slot from the hint on, round the
/// region: every slot between is taken.
pub proof fn law_slots_in_turn(s: SlotMap, slot: u32, d: int)
    requires
        s.wf(),
        next_free(s, slot),
        0 <= d < s.slot_count(),
        s.next_hint() + d < slot || (slot < s.next_hint() && s.next_hint() + d < slot
            + s.slot_count()),
    ensures
        slot < s.slot_count(),
        !s.used(slot),
        !s.reserved(slot),
        ({
            let n = s.slot_count() as int;
            let q = if s.next_hint() + d < n {
                s.next_hint() + d
            } else {
                s.next_hint() + d - n
            };
            s.used(q as u32) || s.reserved(q as u32)
        }),
{
    s.lemma_hint();
    let n = s.slot_count() as int;
    let h = s.next_hint() as int;
    let k = choose|k: int|
        0 <= k < s.slot_count() && slot == #[trigger] s.probe(k) && forall|j: int|
            0 <= j < k ==> !s.is_free(#[trigger] s.probe(j));
    assert((h + k) % n == if h + k < n {
        h + k
    } else {
        h + k - n
    }) by (nonlinear_arith)
        requires
            0 <= h < n,
            0 <= k < n,
    ;
    assert((h + d) % n == if h + d < n {
        h + d
    } else {
        h + d - n
    }) by (nonlinear_arith)
        requires
            0 <= h < n,
            0 <= d < n,
    ;
    assert(d < k);
    assert(!s.is_free(s.probe(d)));
}

impl<
    D: BlockDevice,
    const BLOCK: usize,
    const KEY_MAX: usize,
    const VAL_MAX: usize,
    const CAP: usize,
    const ARENA: usize,
    const LEVELS: usize,
    const TABLES: usize,
    const BLOOM_BYTES: usize,
    const CACHE: usize,
> Db<D, BLOCK, KEY_MAX, VAL_MAX, CAP, ARENA, LEVELS, TABLES, BLOOM_BYTES, CACHE> {
    /// Manifest copies are written in turn: a ring's copies one after the
    /// other from its first block, a pair's two by turns.
    pub proof fn law_copies_in_turn(&self)
        requires
            self.wf(),
            self.is_opened(),
        ensures
            ({
                let cfg = self.config();
                let k = self.man().seq + 1;
                self.copy_at() == (if cfg.manifest_ring == 0 {
                    if k % 2 == 0 {
                        cfg.manifest_a as int
                    } else {
                        cfg.manifest_b as int
                    }
                } else if cfg.manifest_ring == 1 {
                    cfg.manifest_a + (k % 2) * Self::stride()
                } else {
                    cfg.manifest_a + (k % (cfg.manifest_ring as int)) * Self::stride()
                })
            }),
    {
        self.config().lemma_copy_starts(self.man().seq + 1, Self::stride());
    }

    /// A flush gives the WAL its room back: the log goes on behind what was
    /// flushed, or from the start of a region that was used up, and every
    /// sequence given out so far counts as flushed. An empty memtable needs
    /// no table for that.
    pub proof fn law_flush_frees_log(a: &Self, b: &Self, r: Result<(), Error<D::Error>>)
        requires
            a.wf(),
            a.is_opened(),
            Self::flushed(a, b, r),
            r is Ok,
            a.mem().len() > 0 || a.wal_next() >= a.config().wal_end,
        ensures
            b.wal_next() == b.man().wal_head,
            b.wal_next() == (if a.wal_next() >= a.config().wal_end {
                a.config().wal_start
            } else {
                a.wal_next()
            }),
            b.wal_next() < b.config().wal_end,
            b.man().flushed_seq >= a.issued_seq(),
            b.man().flushed_seq == a.issued_seq() || b.man().flushed_seq == a.man().flushed_seq,
            b.issued_seq() == a.issued_seq(),
            b.mem().len() == 0,
            b.man().seq == a.man().seq + 1,
    {
        a.lemma_wf();
        if a.mem().len() > 0 {
            let s = choose|s: u32| #[trigger]
                next_free(a.slot_map(), s) && Self::flushed_into(a, b, s, r);
        }
    }

    /// A flush with nothing to write and log left does nothing; with the
    /// log used up it fails only on the device, or with the manifest's
    /// counter at its end.
    pub proof fn law_empty_flush(a: &Self, b: &Self, r: Result<(), Error<D::Error>>)
        requires
            a.wf(),
            a.is_opened(),
            Self::flushed(a, b, r),
            a.mem().len() == 0,
        ensures
            r matches Err(e) ==> e is Device || a.man().seq == u64::MAX,
            b.man().levels == a.man().levels,
            a.wal_next() < a.config().wal_end ==> b.man() == a.man() && b.content() == a.content(),
    {
    }

    /// A flush takes the next free slot in turn, and the one after it comes
    /// next.
    pub proof fn law_flush_takes_turn(a: &Self, b: &Self, r: Result<(), Error<D::Error>>) -> (s:
        u32)
        requires
            a.wf(),
            a.is_opened(),
            Self::flushed(a, b, r),
            r is Ok,
            a.mem().len() > 0,
        ensures
            next_free(a.slot_map(), s),
            b.slot_map().used(s),
            forall|i: u32| i != s ==> #[trigger] b.slot_map().used(i) == a.slot_map().used(i),
            b.man().levels[0].last().first_block == a.slot_map().base_of(s as int),
            b.slot_map().next_hint() == (if s + 1 < a.slot_map().slot_count() {
                s + 1
            } else {
                0
            }),
    {
        a.lemma_wf();
        let s = choose|s: u32| #[trigger]
            next_free(a.slot_map(), s) && Self::flushed_into(a, b, s, r);
        let n = a.slot_map().slot_count() as int;
        a.lemma_flush_sits(s);
        assert((s + 1) % n == if s + 1 < n {
            s + 1
        } else {
            0
        }) by (nonlinear_arith)
            requires
                0 <= s < n,
        ;
        s
    }

    /// A slot is in use exactly while a live table lies in it.
    pub proof fn law_used_slots_hold_tables(&self, s: u32)
        requires
            self.wf(),
            self.is_opened(),
            self.tidy(),
            s < self.slot_map().slot_count(),
        ensures
            self.slot_map().used(s) <==> exists|l: int, i: int|
                0 <= l < self.man().levels.len() && 0 <= i < self.man().levels[l].len()
                    && self.slot_map().base_of(s as int) <= (
                #[trigger] self.man().levels[l][i]).first_block
                    && self.man().levels[l][i].first_block + self.man().levels[l][i].block_count
                    <= self.slot_map().base_of(s + 1),
    {
        reveal(Db::tidy);
        self.lemma_wf();
        let slots = self.slot_map();
        let levels = self.man().levels;
        if slots.used(s) {
            assert(super::place::occupied(slots, levels, s));
            let (l, i) = choose|l: int, i: int|
                at(levels, l, i) && #[trigger] sits(slots, levels[l][i], s);
            assert(slots.base_of(s as int) <= levels[l][i].first_block);
        }
        if exists|l: int, i: int|
            0 <= l < levels.len() && 0 <= i < levels[l].len() && slots.base_of(s as int) <= (
            #[trigger] levels[l][i]).first_block && levels[l][i].first_block
                + levels[l][i].block_count <= slots.base_of(s + 1) {
            let (l, i) = choose|l: int, i: int|
                0 <= l < levels.len() && 0 <= i < levels[l].len() && slots.base_of(s as int) <= (
                #[trigger] levels[l][i]).first_block && levels[l][i].first_block
                    + levels[l][i].block_count <= slots.base_of(s + 1);
            assert(at(levels, l, i));
            let t = levels[l][i];
            assert(super::place::housed(slots, levels[l][i]));
            let q = choose|q: u32| #[trigger] sits(slots, t, q) && slots.used(q);
            slots.law_one_slot(q, s, t.first_block, t.block_count as u64);
        }
    }
}

} // verus!

//! A compaction job in flight goes on across writes and flushes.

use vstd::prelude::*;

use super::compaction::{inputs_live, job_of};
use super::flush::touches_only;
use super::place::{at, housed, sits};
use super::room::next_free;
use super::Db;
use crate::batch::BatchOpV;
use crate::compact::merge::Compaction;
use crate::device::{same_blocks, BlockDevice};
use crate::error::Error;
use crate::manifest_format::TabV;
use crate::slots::SlotMap;
use crate::wal::WalRec;

verus! {

/// A range of blocks outside the slots, or a slot without a table that is
/// not slot `own`.
spec fn aside(slots: SlotMap, lo: int, hi: int, own: u32) -> bool {
    ||| hi <= lo
    ||| super::apart(lo, hi, slots.base_of(0), slots.base_of(slots.slot_count() as int))
    ||| exists|s: u32|
        s < slots.slot_count() && s != own && !#[trigger] slots.used(s) && lo == slots.base_of(
            s as int,
        ) && hi == slots.base_of(s + 1)
}

/// A change aside from slot `own` leaves that slot's blocks alone.
proof fn lemma_aside_own(slots: SlotMap, lo: int, hi: int, own: u32)
    requires
        slots.wf(),
        own < slots.slot_count(),
        aside(slots, lo, hi, own),
    ensures
        hi <= lo || super::apart(lo, hi, slots.base_of(own as int), slots.base_of(own + 1)),
{
    let n = slots.slot_count() as int;
    slots.law_slots_tile(own as int, n);
    if own > 0 {
        slots.law_slots_tile(0, own as int);
    }
    if hi > lo && !super::apart(lo, hi, slots.base_of(0), slots.base_of(n)) {
        let s = choose|s: u32|
            s < slots.slot_count() && s != own && !#[trigger] slots.used(s) && lo == slots.base_of(
                s as int,
            ) && hi == slots.base_of(s + 1);
        if s < own {
            slots.law_slots_tile(s as int, own as int);
        } else {
            slots.law_slots_tile(own as int, s as int);
        }
    }
}

/// A change aside leaves a housed table's blocks alone.
proof fn lemma_aside_table(slots: SlotMap, lo: int, hi: int, own: u32, t: TabV)
    requires
        slots.wf(),
        housed(slots, t),
        aside(slots, lo, hi, own),
    ensures
        hi <= lo || super::apart(lo, hi, t.first_block as int, t.first_block + t.block_count),
{
    let u = choose|u: u32| #[trigger] sits(slots, t, u) && slots.used(u);
    let n = slots.slot_count() as int;
    slots.law_slots_tile(u as int, n);
    if u > 0 {
        slots.law_slots_tile(0, u as int);
    }
    if hi > lo && !super::apart(lo, hi, slots.base_of(0), slots.base_of(n)) {
        let s = choose|s: u32|
            s < slots.slot_count() && s != own && !#[trigger] slots.used(s) && lo == slots.base_of(
                s as int,
            ) && hi == slots.base_of(s + 1);
        if s < u {
            slots.law_slots_tile(s as int, u as int);
        } else {
            slots.law_slots_tile(u as int, s as int);
        }
    }
}

/// Tables that stay in their levels stay live.
proof fn lemma_live_pushed(l0: Seq<Seq<TabV>>, t: TabV, inputs: Seq<(int, TabV)>)
    requires
        l0.len() >= 1,
        inputs_live(l0, inputs),
    ensures
        inputs_live(l0.update(0, l0[0].push(t)), inputs),
{
    let l1 = l0.update(0, l0[0].push(t));
    assert forall|i: int| 0 <= i < inputs.len() implies 0 <= (#[trigger] inputs[i]).0 < l1.len()
        && l1[inputs[i].0].contains(inputs[i].1) by {
        let l = inputs[i].0;
        let x = choose|x: int| 0 <= x < l0[l].len() && l0[l][x] == inputs[i].1;
        assert(l1[l][x] == inputs[i].1);
    }
}

impl<
    D: BlockDevice,
    const BLOCK: usize,
    const KEY_MAX: usize,
    const VAL_MAX: usize,
    const CAP: usize,
    const ARENA: usize,
    const LEVELS: usize,
    const TABLES: usize,
    const BLOOM_BYTES: usize,
    const CACHE: usize,
> Db<D, BLOCK, KEY_MAX, VAL_MAX, CAP, ARENA, LEVELS, TABLES, BLOOM_BYTES, CACHE> {
    /// A change aside from the tables and the job's slot leaves the job.
    proof fn lemma_goes_on_aside(
        a: &Self,
        b: &Self,
        c: &Compaction<BLOCK, KEY_MAX, VAL_MAX, BLOOM_BYTES>,
        lo: int,
        hi: int,
        copy: int,
        copy_end: int,
    )
        requires
            a.wf(),
            a.is_opened(),
            a.tidy(),
            a.job_held(c),
            touches_only(a.content(), b.content(), lo, hi, copy, copy_end),
            aside(a.slot_map(), lo, hi, job_of(*c).slot),
            aside(a.slot_map(), copy, copy_end, job_of(*c).slot),
            b.slot_map().same_layout(&a.slot_map()),
            !b.slot_map().used(job_of(*c).slot),
            forall|i: u32| #[trigger] b.slot_map().reserved(i) == a.slot_map().reserved(i),
            b.job_slots() == a.job_slots(),
            inputs_live(b.man().levels, job_of(*c).inputs),
        ensures
            b.job_held(c),
    {
        reveal(Db::tidy);
        let j = job_of(*c);
        let slots = a.slot_map();
        let levels = a.man().levels;
        a.lemma_wf();
        lemma_aside_own(slots, lo, hi, j.slot);
        lemma_aside_own(slots, copy, copy_end, j.slot);
        assert forall|i: int| 0 <= i < j.inputs.len() implies ({
            let t = (#[trigger] j.inputs[i]).1;
            same_blocks(
                a.content(),
                b.content(),
                t.first_block as int,
                t.first_block + t.block_count,
            )
        }) by {
            let (l, t) = j.inputs[i];
            let x = choose|x: int| 0 <= x < levels[l].len() && levels[l][x] == t;
            assert(at(levels, l, x));
            assert(housed(slots, levels[l][x]));
            lemma_aside_table(slots, lo, hi, j.slot, t);
            lemma_aside_table(slots, copy, copy_end, j.slot, t);
        }
        Self::law_job_goes_on(a, b, c);
    }

    /// A flush, whatever comes of it, leaves every live table, intact or
    /// damaged: each keeps its place and its blocks.
    pub proof fn law_flush_spares_tables(a: &Self, b: &Self, r: Result<(), Error<D::Error>>)
        requires
            a.wf(),
            a.is_opened(),
            a.seated(),
            Self::flushed(a, b, r),
        ensures
            forall|l: int, i: int|
                at(a.man().levels, l, i) ==> {
                    let t = #[trigger] a.man().levels[l][i];
                    &&& at(b.man().levels, l, i)
                    &&& b.man().levels[l][i] == t
                    &&& same_blocks(
                        a.content(),
                        b.content(),
                        t.first_block as int,
                        t.first_block + t.block_count,
                    )
                },
    {
        reveal(Db::seated);
        let slots = a.slot_map();
        let levels = a.man().levels;
        a.lemma_wf();
        a.lemma_copy_at();
        let cp = a.copy_at();
        let cp_end = a.copy_at() + Self::stride();
        let filled = a.mem().len() > 0 && exists|s: u32| #[trigger]
            next_free(slots, s) && Self::flushed_into(a, b, s, r);
        let s: u32 = if filled {
            choose|s: u32| #[trigger] next_free(slots, s) && Self::flushed_into(a, b, s, r)
        } else {
            0
        };
        let lo = if filled {
            slots.base_of(s as int)
        } else {
            0
        };
        let hi = if filled {
            slots.base_of(s + 1)
        } else {
            0
        };
        let own: u32 = if s == 0 {
            1
        } else {
            0
        };
        assert(touches_only(a.content(), b.content(), lo, hi, cp, cp_end));
        assert(aside(slots, cp, cp_end, own));
        assert(aside(slots, lo, hi, own)) by {
            if filled {
                assert(!slots.used(s));
            }
        }
        assert forall|l: int, i: int| at(levels, l, i) implies ({
            let t = #[trigger] levels[l][i];
            &&& at(b.man().levels, l, i)
            &&& b.man().levels[l][i] == t
            &&& same_blocks(
                a.content(),
                b.content(),
                t.first_block as int,
                t.first_block + t.block_count,
            )
        }) by {
            assert(housed(slots, levels[l][i]));
            lemma_aside_table(slots, lo, hi, own, levels[l][i]);
            lemma_aside_table(slots, cp, cp_end, own, levels[l][i]);
        }
    }

    /// The next WAL block lies aside from the slots.
    proof fn lemma_wal_aside(a: &Self, own: u32)
        requires
            a.wf(),
            a.is_opened(),
            a.config().wal_start <= a.wal_next() < a.config().wal_end,
        ensures
            aside(a.slot_map(), a.wal_next() as int, a.wal_next() + 1, own),
    {
        a.lemma_wf();
    }

    /// A single write, whatever comes of it, leaves the job in flight.
    pub proof fn law_write_keeps_job(
        a: &Self,
        b: &Self,
        rec0: WalRec,
        r: Result<u64, Error<D::Error>>,
        c: &Compaction<BLOCK, KEY_MAX, VAL_MAX, BLOOM_BYTES>,
    )
        requires
            a.wf(),
            a.sound(),
            Self::wrote(a, b, rec0, r),
            a.job_current(c),
            a.job_held(c),
        ensures
            b.job_current(c),
            b.job_held(c),
    {
        let j = job_of(*c);
        a.lemma_wf();
        if b.content() == a.content() {
            Self::lemma_goes_on_aside(a, b, c, 0, 0, 0, 0);
        } else {
            Self::lemma_wal_aside(a, j.slot);
            Self::lemma_goes_on_aside(
                a,
                b,
                c,
                a.wal_next() as int,
                a.wal_next() + 1,
                0,
                0,
            );
        }
    }

    /// A batch, whatever comes of it, leaves the job in flight.
    pub proof fn law_batch_keeps_job(
        a: &Self,
        b: &Self,
        ops: Seq<BatchOpV>,
        r: Result<u64, Error<D::Error>>,
        c: &Compaction<BLOCK, KEY_MAX, VAL_MAX, BLOOM_BYTES>,
    )
        requires
            a.wf(),
            a.sound(),
            Self::wrote_batch(a, b, ops, r),
            a.job_current(c),
            a.job_held(c),
        ensures
            b.job_current(c),
            b.job_held(c),
    {
        let j = job_of(*c);
        a.lemma_wf();
        if b.content() == a.content() {
            Self::lemma_goes_on_aside(a, b, c, 0, 0, 0, 0);
        } else {
            Self::lemma_wal_aside(a, j.slot);
            Self::lemma_goes_on_aside(
                a,
                b,
                c,
                a.wal_next() as int,
                a.wal_next() + 1,
                0,
                0,
            );
        }
    }

    /// A flush, whatever comes of it, leaves the job in flight: it takes a
    /// slot that the job has not reserved.
    pub proof fn law_flush_keeps_job(
        a: &Self,
        b: &Self,
        r: Result<(), Error<D::Error>>,
        c: &Compaction<BLOCK, KEY_MAX, VAL_MAX, BLOOM_BYTES>,
    )
        requires
            a.wf(),
            a.sound(),
            Self::flushed(a, b, r),
            a.job_current(c),
            a.job_held(c),
        ensures
            b.job_current(c),
            b.job_held(c),
    {
        let j = job_of(*c);
        let slots = a.slot_map();
        a.lemma_wf();
        a.lemma_copy_at();
        let cp = a.copy_at();
        let cp_end = a.copy_at() + Self::stride();
        if b.content() == a.content() && b.man() == a.man() && b.slot_map() == a.slot_map() {
            Self::lemma_goes_on_aside(a, b, c, 0, 0, 0, 0);
        } else if a.mem().len() == 0 {
            Self::lemma_goes_on_aside(a, b, c, 0, 0, cp, cp_end);
        } else {
            let s = choose|s: u32| #[trigger] next_free(slots, s) && Self::flushed_into(a, b, s, r);
            let lo = slots.base_of(s as int);
            let hi = slots.base_of(s + 1);
            assert(s != j.slot) by {
                assert(slots.reserved(j.slot));
            }
            assert(!slots.used(s));
            assert(aside(slots, lo, hi, j.slot));
            if r is Ok {
                lemma_live_pushed(
                    a.man().levels,
                    super::flush::flush_tab(
                        a.mem(),
                        a.man().next_table_id,
                        lo as u64,
                        BLOCK as int,
                    ),
                    j.inputs,
                );
            }
            Self::lemma_goes_on_aside(a, b, c, lo, hi, cp, cp_end);
        }
    }
}

} // verus!

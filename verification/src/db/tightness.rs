//! How closely a table's reference bounds what the table holds.

use vstd::prelude::*;

use super::compaction::job_tab;
use super::flush::{
    first_point, flush_tab, last_point, lemma_group_top_is, lemma_points_from, lemma_rdels_top_is,
};
use super::room::next_free;
use super::view::lemma_rdels_of_from;
use super::Db;
use crate::compact::bounds::{greatest_end, least_start};
use crate::device::BlockDevice;
use crate::error::Error;
use crate::memtable::Rec;
use crate::sstable::capacity::{points_of, rdels_of};
use crate::sstable::format::{group_low, RdelV};
use crate::sstable::rdel::{rdels_end, rdels_low};
use crate::sstable::writer::WriterV;

verus! {

proof fn lemma_group_low_is(es: Seq<Rec>)
    ensures
        es.len() == 0 ==> group_low(es) == u64::MAX,
        es.len() > 0 ==> exists|j: int|
            0 <= j < es.len() && (#[trigger] es[j]).seq == group_low(es),
    decreases es.len(),
{
    if es.len() > 0 {
        let d = es.drop_last();
        lemma_group_low_is(d);
        if es.last().seq < group_low(d) || d.len() == 0 {
            assert(es[es.len() - 1].seq == group_low(es));
        } else {
            let j = choose|j: int| 0 <= j < d.len() && (#[trigger] d[j]).seq == group_low(d);
            assert(es[j].seq == group_low(es));
        }
    }
}

proof fn lemma_rdels_low_is(rs: Seq<RdelV>)
    ensures
        rs.len() == 0 ==> rdels_low(rs) == u64::MAX,
        rs.len() > 0 ==> exists|j: int|
            0 <= j < rs.len() && (#[trigger] rs[j]).seq == rdels_low(rs),
    decreases rs.len(),
{
    if rs.len() > 0 {
        let d = rs.drop_last();
        lemma_rdels_low_is(d);
        if rs.last().seq < rdels_low(d) || d.len() == 0 {
            assert(rs[rs.len() - 1].seq == rdels_low(rs));
        } else {
            let j = choose|j: int| 0 <= j < d.len() && (#[trigger] d[j]).seq == rdels_low(d);
            assert(rs[j].seq == rdels_low(rs));
        }
    }
}

proof fn lemma_ends_are(rs: Seq<RdelV>)
    requires
        forall|i: int|
            0 <= i < rs.len() ==> (#[trigger] rs[i]).start.len() > 0 && rs[i].end.len() > 0,
    ensures
        rs.len() > 0 ==> rdels_end(rs) is Some && exists|j: int|
            0 <= j < rs.len() && (#[trigger] rs[j]).end == rdels_end(rs)->0,
        rs.len() > 0 ==> exists|j: int|
            0 <= j < rs.len() && (#[trigger] rs[j]).end == greatest_end(rs),
        rs.len() > 0 ==> exists|j: int|
            0 <= j < rs.len() && (#[trigger] rs[j]).start == least_start(rs),
    decreases rs.len(),
{
    if rs.len() > 0 {
        let d = rs.drop_last();
        let n = rs.len() - 1;
        assert forall|i: int| 0 <= i < d.len() implies (#[trigger] d[i]).start.len() > 0
            && d[i].end.len() > 0 by {
            assert(d[i] == rs[i]);
        }
        lemma_ends_are(d);
        assert(rs[n] == rs.last());
        if d.len() > 0 {
            let a = choose|j: int| 0 <= j < d.len() && (#[trigger] d[j]).end == rdels_end(d)->0;
            let b = choose|j: int| 0 <= j < d.len() && (#[trigger] d[j]).end == greatest_end(d);
            let c = choose|j: int| 0 <= j < d.len() && (#[trigger] d[j]).start == least_start(d);
            assert(rs[a] == d[a] && rs[b] == d[b] && rs[c] == d[c]);
            assert(greatest_end(rs) == rs[b].end || greatest_end(rs) == rs[n].end);
            assert(least_start(rs) == rs[c].start || least_start(rs) == rs[n].start);
        } else {
            assert(greatest_end(d).len() == 0 && least_start(d).len() == 0);
            assert(greatest_end(rs) == rs[n].end && least_start(rs) == rs[n].start);
        }
    }
}

/// What a merge leaves is bounded by what it holds: the first key is the
/// key of an entry or the start of a range tombstone, the last that of one
/// or the end of the other, and the sequences are those of one.
pub proof fn law_output_is_tight(w: WriterV, rs: Seq<RdelV>, id: u32, block: int)
    requires
        w.all().len() + rs.len() > 0,
        forall|i: int| 0 <= i < w.all().len() ==> (#[trigger] w.all()[i]).key.len() > 0,
        forall|i: int|
            0 <= i < rs.len() ==> (#[trigger] rs[i]).start.len() > 0 && rs[i].end.len() > 0,
    ensures
        ({
            let t = job_tab(w, rs, id, block);
            let es = w.all();
            &&& (exists|i: int| 0 <= i < es.len() && (#[trigger] es[i]).key == t.first_key) || (
            exists|j: int| 0 <= j < rs.len() && (#[trigger] rs[j]).start == t.first_key)
            &&& (exists|i: int| 0 <= i < es.len() && (#[trigger] es[i]).key == t.last_key) || (
            exists|j: int| 0 <= j < rs.len() && (#[trigger] rs[j]).end == t.last_key)
            &&& (exists|i: int| 0 <= i < es.len() && (#[trigger] es[i]).seq == t.max_seq) || (
            exists|j: int| 0 <= j < rs.len() && (#[trigger] rs[j]).seq == t.max_seq)
            &&& (exists|i: int| 0 <= i < es.len() && (#[trigger] es[i]).seq == t.min_seq) || (
            exists|j: int| 0 <= j < rs.len() && (#[trigger] rs[j]).seq == t.min_seq)
            &&& t.first_block == w.base
            &&& es.len() <= u32::MAX ==> t.entry_count == es.len()
        }),
{
    let es = w.all();
    lemma_ends_are(rs);
    lemma_group_top_is(es);
    lemma_rdels_top_is(rs);
    lemma_group_low_is(es);
    lemma_rdels_low_is(rs);
    if es.len() > 0 {
        assert(es[0].key == first_point(es));
        assert(es[es.len() - 1].key == last_point(es));
    }
}

/// An entry of the memtable stands among its points or its tombstones.
proof fn lemma_part_held(mem: Seq<Rec>, i: int)
    requires
        0 <= i < mem.len(),
        mem[i].range_del ==> mem[i].val.len() > 0,
    ensures
        !mem[i].range_del ==> points_of(mem).len() > 0,
        mem[i].range_del ==> rdels_of(mem).len() > 0,
    decreases mem.len(),
{
    if i < mem.len() - 1 {
        let d = mem.drop_last();
        assert(d[i] == mem[i]);
        lemma_part_held(d, i);
    }
}

/// A sequence of a point or of a tombstone is one of the memtable's.
proof fn lemma_seq_held(mem: Seq<Rec>, x: u64)
    requires
        ({
            let ps = points_of(mem);
            let rs = rdels_of(mem);
            (exists|j: int| 0 <= j < ps.len() && (#[trigger] ps[j]).seq == x) || (exists|j: int|
                0 <= j < rs.len() && (#[trigger] rs[j]).seq == x)
        }),
    ensures
        exists|i: int| 0 <= i < mem.len() && (#[trigger] mem[i]).seq == x,
{
    let ps = points_of(mem);
    let rs = rdels_of(mem);
    if exists|j: int| 0 <= j < ps.len() && (#[trigger] ps[j]).seq == x {
        let j = choose|j: int| 0 <= j < ps.len() && (#[trigger] ps[j]).seq == x;
        let k = lemma_points_from(mem, j);
        assert(mem[k].seq == x);
    } else {
        let j = choose|j: int| 0 <= j < rs.len() && (#[trigger] rs[j]).seq == x;
        let k = lemma_rdels_of_from(mem, j);
        assert(mem[k].seq == x);
    }
}

impl<
    D: BlockDevice,
    const BLOCK: usize,
    const KEY_MAX: usize,
    const VAL_MAX: usize,
    const CAP: usize,
    const ARENA: usize,
    const LEVELS: usize,
    const TABLES: usize,
    const BLOOM_BYTES: usize,
    const CACHE: usize,
> Db<D, BLOCK, KEY_MAX, VAL_MAX, CAP, ARENA, LEVELS, TABLES, BLOOM_BYTES, CACHE> {
    /// The table of a flush is bounded by what the memtable held: the first
    /// key is one of its keys, the last one of its keys or the end of one
    /// of its range tombstones, and the sequences are two of its own.
    pub proof fn law_flush_is_tight(a: &Self, b: &Self, r: Result<(), Error<D::Error>>, q: int)
        requires
            a.wf(),
            a.is_opened(),
            Self::flushed(a, b, r),
            r is Ok,
            0 <= q < a.mem().len(),
            a.mem()[q].range_del ==> a.mem()[q].val.len() > 0,
        ensures
            ({
                let t = b.man().levels[0].last();
                let mem = a.mem();
                &&& exists|i: int| 0 <= i < mem.len() && (#[trigger] mem[i]).key == t.first_key
                &&& exists|i: int|
                    0 <= i < mem.len() && (if (#[trigger] mem[i]).range_del {
                        mem[i].val
                    } else {
                        mem[i].key
                    }) == t.last_key
                &&& exists|i: int| 0 <= i < mem.len() && (#[trigger] mem[i]).seq == t.max_seq
                &&& exists|i: int| 0 <= i < mem.len() && (#[trigger] mem[i]).seq == t.min_seq
            }),
    {
        a.lemma_wf();
        a.lemma_mem_ok();
        let mem = a.mem();
        let ps = points_of(mem);
        let rs = rdels_of(mem);
        let s = choose|s: u32| #[trigger]
            next_free(a.slot_map(), s) && Self::flushed_into(a, b, s, r);
        let t = flush_tab(
            mem,
            a.man().next_table_id,
            a.slot_map().base_of(s as int) as u64,
            BLOCK as int,
        );
        assert(b.man().levels[0].last() == t);
        lemma_part_held(mem, q);
        assert forall|i: int| 0 <= i < rs.len() implies (#[trigger] rs[i]).start.len() > 0
            && rs[i].end.len() > 0 by {
            let k = lemma_rdels_of_from(mem, i);
            assert(super::flush::mem_rec_ok(mem[k], KEY_MAX as int, VAL_MAX as int));
        }
        assert forall|i: int| 0 <= i < ps.len() implies (#[trigger] ps[i]).key.len() > 0 by {
            let k = lemma_points_from(mem, i);
            assert(super::flush::mem_rec_ok(mem[k], KEY_MAX as int, VAL_MAX as int));
        }
        lemma_ends_are(rs);
        lemma_group_top_is(ps);
        lemma_rdels_top_is(rs);
        lemma_group_low_is(ps);
        lemma_rdels_low_is(rs);
        if ps.len() > 0 {
            assert(ps[0].key.len() > 0 && ps[ps.len() - 1].key.len() > 0);
        }
        // First key.
        assert(exists|i: int| 0 <= i < mem.len() && (#[trigger] mem[i]).key == t.first_key) by {
            if ps.len() > 0 && t.first_key == ps[0].key {
                let k = lemma_points_from(mem, 0);
                assert(mem[k].key == t.first_key);
            } else {
                let k = lemma_rdels_of_from(mem, 0);
                assert(mem[k].key == t.first_key);
            }
        }
        // Last key.
        assert(exists|i: int|
            0 <= i < mem.len() && (if (#[trigger] mem[i]).range_del {
                mem[i].val
            } else {
                mem[i].key
            }) == t.last_key) by {
            if ps.len() > 0 && t.last_key == ps.last().key {
                let k = lemma_points_from(mem, ps.len() - 1);
                assert(mem[k].key == t.last_key && !mem[k].range_del);
            } else {
                let j = choose|j: int|
                    0 <= j < rs.len() && (#[trigger] rs[j]).end == rdels_end(rs)->0;
                let k = lemma_rdels_of_from(mem, j);
                assert(mem[k].range_del && mem[k].val == t.last_key);
            }
        }
        // Sequences.
        assert((exists|j: int| 0 <= j < ps.len() && (#[trigger] ps[j]).seq == t.max_seq) || (
        exists|j: int| 0 <= j < rs.len() && (#[trigger] rs[j]).seq == t.max_seq));
        assert((exists|j: int| 0 <= j < ps.len() && (#[trigger] ps[j]).seq == t.min_seq) || (
        exists|j: int| 0 <= j < rs.len() && (#[trigger] rs[j]).seq == t.min_seq));
        lemma_seq_held(mem, t.max_seq);
        lemma_seq_held(mem, t.min_seq);
    }
}

} // verus!

//! Flush: the memtable becomes one `SSTable` in a free table slot.

use vstd::prelude::*;

use super::commit::next_copy;
use super::place::{
    at, lemma_place_insert, placed, lemma_tables_kept, lemma_tables_kept_both, lemma_top_flat, sits,
};
use super::room::next_free;
use super::view::{
    acc_over, acc_with, is_run_of, lemma_acc_concat, lemma_acc_kept, lemma_mem_rdels_sorted,
    lemma_points_read, lemma_rdels_of_from, lemma_tab_is, mem_acc, rdel_inside, read_order,
    rec_inside, tab_recs, tab_rdels, tab_sound, AccV, DimsV,
};
use super::{cached_ok, ids_ok, issued, live_id, seqs_given, tables_ok, Db};
use crate::bytes::{lemma_lex_irreflexive, lemma_lex_le_le, lemma_lex_total, lex_le, lex_lt};
use crate::compact::bounds::{greater, lesser};
use crate::compact::cursor::{rec_within, recs_within};
use crate::compact::rdel_merge::{rdel_within, rdels_within, rle};
use crate::compact::sift::first_at;
use crate::compress::CompressScratch;
use crate::device::{same_blocks, same_outside, synced, BlockDevice};
use crate::error::Error;
use crate::keys::KeyBound;
use crate::manifest::{holds_copy, Manifest, TableRef};
use crate::manifest_format::{total_tables, ManV, TabV};
use crate::memtable::{key_sorted, lemma_top_bound, runs_newest_first, top_seq, MemTable, Rec};
use crate::sstable::block::RdelEntry;
use crate::sstable::bloom::{bloom_k, probes_for};
use crate::sstable::capacity::{law_flush_fits, points_of, rdels_of};
use crate::sstable::format::{group_low, group_top, stored, RdelV};
use crate::sstable::rdel::{
    bounds_given, plan_rdel_blocks, rdel_check, rdel_views, rdels_check, rdels_end, rdels_fit,
    rdels_low, rdels_top, rpack, write_rdel_blocks, RdelPlan,
};
use crate::sstable::table::RunV;
use crate::sstable::writer::{
    data_image, data_imaged, entry_views, law_pack_keeps_entries, law_plan_matches_writer,
    lemma_imaged_step, lemma_on_step, lemma_plan_check, lemma_write_run_prefix, pack, pack_check,
    plan_table, run_of, seq_min, stored_all, write_run, SstEntry, TablePlan, TableWriter, WriterV,
};
use crate::wal::seq_max;

verus! {

/// The smallest key of points, empty without one.
pub open spec fn first_point(ps: Seq<Rec>) -> Seq<u8> {
    if ps.len() == 0 {
        Seq::empty()
    } else {
        ps[0].key
    }
}

/// The largest key of points, empty without one.
pub open spec fn last_point(ps: Seq<Rec>) -> Seq<u8> {
    if ps.len() == 0 {
        Seq::empty()
    } else {
        ps.last().key
    }
}

/// The smallest start of tombstones in order, empty without one.
pub open spec fn first_start(rs: Seq<RdelV>) -> Seq<u8> {
    if rs.len() == 0 {
        Seq::empty()
    } else {
        rs[0].start
    }
}

/// The largest end of tombstones, empty without one.
pub open spec fn last_end(rs: Seq<RdelV>) -> Seq<u8> {
    match rdels_end(rs) {
        Some(e) => e,
        None => Seq::empty(),
    }
}

/// The reference to the table that a flush of `mem` at `base` leaves. Key
/// bounds and sequences cover both sections: range tombstones participate
/// in table pruning and winner selection.
pub open spec fn flush_tab(mem: Seq<Rec>, id: u32, base: u64, block: int) -> TabV {
    let ps = points_of(mem);
    let rs = rdels_of(mem);
    TabV {
        id,
        first_block: base,
        block_count: (pack(ps, block).len() + rpack(rs, block).len() + 3) as u32,
        first_key: lesser(first_point(ps), first_start(rs)),
        last_key: greater(last_point(ps), last_end(rs)),
        max_seq: seq_max(group_top(ps), rdels_top(rs)),
        min_seq: seq_min(group_low(ps), rdels_low(rs)),
        entry_count: ps.len() as u32,
        rdel_blocks: rpack(rs, block).len() as u32,
    }
}

/// The table that a flush of `mem` at `base` writes.
pub open spec fn flush_run(mem: Seq<Rec>, base: u64, k: u8, block: int) -> RunV {
    let ps = points_of(mem);
    let rs = rdels_of(mem);
    RunV {
        base,
        groups: pack(ps, block),
        rgroups: rpack(rs, block),
        k,
        min_seq: seq_min(group_low(ps), rdels_low(rs)),
    }
}

/// Whether the points' index fits its block, so that the table can be
/// written at `base`.
pub open spec fn run_fits<E>(
    base: u64,
    k: u8,
    ps: Seq<Rec>,
    block: int,
    key_max: usize,
) -> bool {
    match write_run::<E>(base, k, pack(ps, block).len() as u64, ps, block, key_max) {
        Ok(v) => v.cur.len() > 0 ==> v.may_seal() && v.index_room(block),
        Err(_) => false,
    }
}

// ---------------------------------------------------------------------
// The points and tombstones of a memtable.

/// Where point `j` of a memtable stands in it.
pub(super) proof fn lemma_points_from(mem: Seq<Rec>, j: int) -> (i: int)
    requires
        0 <= j < points_of(mem).len(),
    ensures
        0 <= i < mem.len(),
        !mem[i].range_del,
        points_of(mem)[j] == mem[i],
        j <= i,
    decreases mem.len(),
{
    let d = mem.drop_last();
    let n = points_of(d).len();
    lemma_points_len(d);
    if !mem.last().range_del && j == n {
        mem.len() - 1
    } else {
        assert(points_of(mem)[j] == points_of(d)[j]);
        let i = lemma_points_from(d, j);
        assert(d[i] == mem[i]);
        i
    }
}

proof fn lemma_points_len(mem: Seq<Rec>)
    ensures
        points_of(mem).len() <= mem.len(),
        rdels_of(mem).len() <= mem.len(),
    decreases mem.len(),
{
    if mem.len() > 0 {
        lemma_points_len(mem.drop_last());
    }
}

/// The points of a sorted memtable are sorted.
proof fn lemma_points_sorted(mem: Seq<Rec>)
    requires
        key_sorted(mem),
    ensures
        key_sorted(points_of(mem)),
        runs_newest_first(mem) ==> runs_newest_first(points_of(mem)),
    decreases mem.len(),
{
    if mem.len() > 0 {
        let d = mem.drop_last();
        let n = mem.len() - 1;
        assert forall|x: int, y: int| 0 <= x <= y < d.len() implies #[trigger] lex_le(
            d[x].key,
            #[trigger] d[y].key,
        ) by {
            assert(lex_le(mem[x].key, mem[y].key));
        }
        if runs_newest_first(mem) {
            assert forall|x: int, y: int|
                #![trigger d[x], d[y]]
                0 <= x < y < d.len() && d[x].key == d[y].key implies d[x].seq > d[y].seq by {
                assert(mem[x].key == mem[y].key);
            }
        }
        lemma_points_sorted(d);
        let ps = points_of(mem);
        let ds = points_of(d);
        if !mem.last().range_del {
            assert forall|x: int, y: int| 0 <= x <= y < ps.len() implies #[trigger] lex_le(
                ps[x].key,
                #[trigger] ps[y].key,
            ) by {
                if y < ds.len() {
                    assert(lex_le(ds[x].key, ds[y].key));
                } else if x < ds.len() {
                    let i = lemma_points_from(d, x);
                    assert(lex_le(mem[i].key, mem[n].key));
                } else {
                    lemma_lex_irreflexive(ps[x].key);
                }
            }
            if runs_newest_first(mem) {
                assert forall|x: int, y: int|
                    #![trigger ps[x], ps[y]]
                    0 <= x < y < ps.len() && ps[x].key == ps[y].key implies ps[x].seq
                    > ps[y].seq by {
                    if y < ds.len() {
                        assert(ds[x].key == ds[y].key);
                    } else {
                        let i = lemma_points_from(d, x);
                        assert(mem[i].key == mem[n].key);
                    }
                }
            }
        }
    }
}

/// Every sequence of a group lies between its lowest and highest.
pub(super) proof fn lemma_group_bounds(es: Seq<Rec>, i: int)
    requires
        0 <= i < es.len(),
    ensures
        group_low(es) <= es[i].seq <= group_top(es),
    decreases es.len(),
{
    if i < es.len() - 1 {
        lemma_group_bounds(es.drop_last(), i);
    }
}

/// Every tombstone's sequence lies between the lowest and highest, and its
/// end is at most the largest.
pub(super) proof fn lemma_rdel_bounds(rs: Seq<RdelV>, i: int)
    requires
        0 <= i < rs.len(),
    ensures
        rdels_low(rs) <= rs[i].seq <= rdels_top(rs),
        rdels_end(rs) is Some,
        lex_le(rs[i].end, rdels_end(rs)->0),
    decreases rs.len(),
{
    let t = rdels_end(rs.drop_last());
    if i < rs.len() - 1 {
        lemma_rdel_bounds(rs.drop_last(), i);
        if lex_lt(t->0, rs.last().end) {
            lemma_lex_lt_or(t->0, rs.last().end);
            lemma_lex_le_le(rs[i].end, t->0, rs.last().end);
        }
    } else {
        lemma_lex_irreflexive(rs.last().end);
        if t is Some {
            lemma_lex_total(t->0, rs.last().end);
        }
    }
}

/// The largest end is one of the ends.
proof fn lemma_end_is(rs: Seq<RdelV>)
    requires
        rs.len() > 0,
    ensures
        exists|i: int| 0 <= i < rs.len() && (#[trigger] rs[i]).end == rdels_end(rs)->0,
        rdels_end(rs) is Some,
    decreases rs.len(),
{
    let d = rs.drop_last();
    if rs.len() == 1 {
        assert(rs[0].end == rdels_end(rs)->0);
    } else {
        lemma_end_is(d);
        let i = choose|i: int| 0 <= i < d.len() && (#[trigger] d[i]).end == rdels_end(d)->0;
        assert(rs[i].end == d[i].end);
        assert(rs[rs.len() - 1].end == rs.last().end);
    }
}

/// What the points and tombstones of a memtable keep within.
proof fn lemma_parts_within(mem: Seq<Rec>, key_max: usize, val_max: usize)
    requires
        forall|i: int|
            0 <= i < mem.len() ==> mem_rec_ok(#[trigger] mem[i], key_max as int, val_max as int),
    ensures
        recs_within(points_of(mem), key_max, val_max),
        rdels_within(rdels_of(mem), key_max),
        bounds_given(rdels_of(mem)),
        stored_all(points_of(mem)) == points_of(mem),
{
    let ps = points_of(mem);
    let rs = rdels_of(mem);
    assert forall|j: int| 0 <= j < ps.len() implies rec_within(#[trigger] ps[j], key_max, val_max)
        && stored(ps[j]) == ps[j] by {
        let i = lemma_points_from(mem, j);
        assert(mem_rec_ok(mem[i], key_max as int, val_max as int));
        if ps[j].tombstone {
            assert(ps[j].val =~= Seq::<u8>::empty());
        }
    }
    assert forall|j: int| 0 <= j < rs.len() implies rdel_within(#[trigger] rs[j], key_max) by {
        let i = lemma_rdels_of_from(mem, j);
        assert(mem_rec_ok(mem[i], key_max as int, val_max as int));
    }
    assert forall|j: int| 0 <= j < rs.len() implies (#[trigger] rs[j]).start.len() >= 1
        && rs[j].end.len() >= 1 by {
        assert(rdel_within(rs[j], key_max));
    }
    assert(stored_all(ps) =~= ps);
}

/// Sizes and tags that a memtable entry can have.
pub open spec fn mem_rec_ok(r: Rec, key_max: int, val_max: int) -> bool {
    &&& 1 <= r.key.len() <= key_max
    &&& r.range_del ==> r.val.len() <= key_max
    &&& !r.range_del ==> r.val.len() <= val_max
    &&& r.tombstone ==> r.val.len() == 0 && r.expire_at == 0
}

/// The written table is that of the reference.
proof fn lemma_flush_run(
    mem: Seq<Rec>,
    id: u32,
    base: u64,
    k: u8,
    c: Map<u64, Seq<u8>>,
    d: DimsV,
)
    requires
        key_sorted(mem),
        runs_newest_first(mem),
        forall|i: int|
            0 <= i < mem.len() ==> mem_rec_ok(
                #[trigger] mem[i],
                d.key_max as int,
                d.val_max as int,
            ),
        mem.len() < u32::MAX,
        flush_run(mem, base, k, d.block).wf(d.block, d.bloom),
        flush_run(mem, base, k, d.block).on(c, d.block, d.bloom),
        pack(points_of(mem), d.block).len() + rpack(rdels_of(mem), d.block).len() + 3 <= u32::MAX,
        crate::sstable::rdel::rdel_shape(d.block),
    ensures
        is_run_of(
            flush_run(mem, base, k, d.block),
            c,
            flush_tab(mem, id, base, d.block),
            d,
        ),
        flush_run(mem, base, k, d.block).recs() == points_of(mem),
        flush_run(mem, base, k, d.block).rdels() == rdels_of(mem),
{
    let ps = points_of(mem);
    let rs = rdels_of(mem);
    let run = flush_run(mem, base, k, d.block);
    let t = flush_tab(mem, id, base, d.block);
    lemma_points_sorted(mem);
    lemma_points_len(mem);
    lemma_parts_within(mem, d.key_max, d.val_max);
    lemma_mem_rdels_sorted(mem);
    law_pack_keeps_entries(ps, d.block);
    crate::sstable::rdel::law_rpack(rs, d.block);
    assert forall|g: int| 0 <= g < ps.len() implies rec_inside(t, #[trigger] ps[g]) by {
        lemma_group_bounds(ps, g);
        assert(rec_within(ps[g], d.key_max, d.val_max));
        assert(rec_within(ps[0], d.key_max, d.val_max));
        assert(lex_le(ps[0].key, ps[g].key));
        assert(lex_le(ps[g].key, ps[ps.len() - 1].key));
        lemma_lesser(first_point(ps), first_start(rs));
        lemma_greater(last_point(ps), last_end(rs));
        lemma_lex_le_le(t.first_key, ps[0].key, ps[g].key);
        lemma_lex_le_le(ps[g].key, ps[ps.len() - 1].key, t.last_key);
    }
    assert forall|j: int| 0 <= j < rs.len() implies rdel_inside(t, #[trigger] rs[j]) by {
        lemma_rdel_bounds(rs, j);
        assert(rdel_within(rs[j], d.key_max));
        assert(rdel_within(rs[0], d.key_max));
        assert(rle(rs[0], rs[j]));
        lemma_lex_irreflexive(rs[0].start);
        lemma_lex_total(rs[0].start, rs[j].start);
        lemma_lesser(first_point(ps), first_start(rs));
        lemma_greater(last_point(ps), last_end(rs));
        lemma_end_is(rs);
        let e = choose|e: int| 0 <= e < rs.len() && (#[trigger] rs[e]).end == rdels_end(rs)->0;
        assert(rdel_within(rs[e], d.key_max));
        lemma_lex_lt_or(rs[0].start, rs[j].start);
        lemma_lex_le_le(t.first_key, rs[0].start, rs[j].start);
        lemma_lex_le_le(rs[j].end, rdels_end(rs)->0, t.last_key);
    }
}

pub(super) proof fn lemma_lex_lt_or(a: Seq<u8>, b: Seq<u8>)
    ensures
        lex_lt(a, b) || a == b ==> lex_le(a, b),
{
    lemma_lex_irreflexive(a);
    lemma_lex_total(a, b);
    if lex_lt(a, b) {
        crate::bytes::lemma_lex_asymmetric(a, b);
    }
}

/// The lesser of two keys is at most each that is given.
pub(super) proof fn lemma_lesser(a: Seq<u8>, b: Seq<u8>)
    ensures
        a.len() > 0 ==> lex_le(lesser(a, b), a),
        b.len() > 0 ==> lex_le(lesser(a, b), b),
{
    lemma_lex_irreflexive(a);
    lemma_lex_irreflexive(b);
    lemma_lex_lt_or(b, a);
    lemma_lex_total(a, b);
    lemma_lex_lt_or(a, b);
}

/// The greater of two keys is at least each that is given.
pub(super) proof fn lemma_greater(a: Seq<u8>, b: Seq<u8>)
    ensures
        a.len() > 0 ==> lex_le(a, greater(a, b)),
        b.len() > 0 ==> lex_le(b, greater(a, b)),
{
    lemma_lex_irreflexive(a);
    lemma_lex_irreflexive(b);
    lemma_lex_lt_or(b, a);
    lemma_lex_total(a, b);
    lemma_lex_lt_or(a, b);
}

/// The point entries of a memtable, in order.
fn collect_points<
    'a,
    const CAP: usize,
    const ARENA: usize,
    const KEY_MAX: usize,
    const VAL_MAX: usize,
>(table: &'a MemTable<CAP, ARENA, KEY_MAX, VAL_MAX>) -> (r: ([SstEntry<'a>; CAP], usize))
    requires
        table.wf(),
    ensures
        r.1 <= CAP,
        entry_views(r.0@.take(r.1 as int)) == points_of(table@),
{
    let none: &'a [u8] = &[];
    let mut out: [SstEntry<'a>; CAP] = [SstEntry {
        key: none,
        val: none,
        seq: 0,
        tombstone: false,
        expire_at: 0,
    };CAP];
    let mut len: usize = 0;
    let mut it = table.iter();
    let ghost mem = table@;
    let ghost mut n: int = 0;
    proof {
        table.lemma_wf();
        assert(mem.take(0) =~= Seq::<Rec>::empty());
        assert(entry_views(out@.take(0)) =~= points_of(mem.take(0)));
        assert(it.rest() =~= mem.skip(0));
    }
    loop
        invariant
            it.wf(),
            mem == table@,
            mem.len() <= CAP,
            0 <= n <= mem.len(),
            len <= n,
            it.rest() == mem.skip(n),
            entry_views(out@.take(len as int)) == points_of(mem.take(n)),
        ensures
            n == mem.len(),
        decreases mem.len() - n,
    {
        let e = match it.next() {
            Some(e) => e,
            None => {
                break;
            },
        };
        proof {
            assert(e@ == mem[n]);
            assert(mem.take(n + 1).drop_last() =~= mem.take(n));
            assert(mem.take(n + 1).last() == mem[n]);
            assert(mem.skip(n).skip(1) =~= mem.skip(n + 1));
        }
        let ghost before = out@.take(len as int);
        if !e.range_del {
            out[len] = SstEntry {
                key: e.key,
                val: e.val,
                seq: e.seq,
                tombstone: e.tombstone,
                expire_at: e.expire_at,
            };
            len = len + 1;
            proof {
                assert(entry_views(out@.take(len as int)) =~= entry_views(before).push(mem[n]));
            }
        }
        proof {
            n = n + 1;
        }
    }
    proof {
        assert(mem.take(n) =~= mem);
    }
    (out, len)
}

/// The range tombstones of a memtable, in order.
fn collect_rdels<
    'a,
    const CAP: usize,
    const ARENA: usize,
    const KEY_MAX: usize,
    const VAL_MAX: usize,
>(table: &'a MemTable<CAP, ARENA, KEY_MAX, VAL_MAX>) -> (r: ([RdelEntry<'a>; CAP], usize))
    requires
        table.wf(),
    ensures
        r.1 <= CAP,
        rdel_views(r.0@.take(r.1 as int)) == rdels_of(table@),
{
    let none: &'a [u8] = &[];
    let mut out: [RdelEntry<'a>; CAP] = [RdelEntry { start: none, end: none, seq: 0 };CAP];
    let mut len: usize = 0;
    let mut it = table.iter();
    let ghost mem = table@;
    let ghost mut n: int = 0;
    proof {
        table.lemma_wf();
        assert(mem.take(0) =~= Seq::<Rec>::empty());
        assert(rdel_views(out@.take(0)) =~= rdels_of(mem.take(0)));
        assert(it.rest() =~= mem.skip(0));
    }
    loop
        invariant
            it.wf(),
            mem == table@,
            0 <= n <= mem.len(),
            it.rest() == mem.skip(n),
            mem.len() <= CAP,
            len <= n,
            rdel_views(out@.take(len as int)) == rdels_of(mem.take(n)),
        ensures
            n == mem.len(),
        decreases mem.len() - n,
    {
        let e = match it.next() {
            Some(e) => e,
            None => {
                break;
            },
        };
        proof {
            assert(e@ == mem[n]);
            assert(mem.take(n + 1).drop_last() =~= mem.take(n));
            assert(mem.take(n + 1).last() == mem[n]);
            assert(mem.skip(n).skip(1) =~= mem.skip(n + 1));
        }
        let ghost before = out@.take(len as int);
        if e.range_del && e.val.len() > 0 {
            out[len] = RdelEntry { start: e.key, end: e.val, seq: e.seq };
            len = len + 1;
            proof {
                assert(rdel_views(out@.take(len as int)) =~= rdel_views(before).push(
                    RdelV { start: mem[n].key, end: mem[n].val, seq: mem[n].seq },
                ));
            }
        }
        proof {
            n = n + 1;
        }
    }
    proof {
        assert(mem.take(n) =~= mem);
    }
    (out, len)
}

/// An error of the writer, as a flush reports it: a table that does not fit
/// its index is too large.
fn too_large<E>(e: Error<E>) -> (r: Error<E>)
    ensures
        r == (match e {
            Error::Device(x) => Error::Device(x),
            _ => Error::TableTooLarge,
        }),
{
    match e {
        Error::Device(x) => Error::Device(x),
        _ => Error::TableTooLarge,
    }
}

/// Streams the data section at `base`. The writer's block limit is the
/// planned data-block count: plan and writer share one packing rule, so it
/// is never reached, but a mismatch fails loudly instead of overrunning the
/// slot.
fn write_data<
    D: BlockDevice,
    const BLOCK: usize,
    const BLOOM_BYTES: usize,
    const KEY_MAX: usize,
>(
    device: &mut D,
    points: &[SstEntry<'_>],
    base: u64,
    k: u8,
    limit: u64,
) -> (r: Result<TableWriter<BLOCK, BLOOM_BYTES, KEY_MAX>, Error<D::Error>>)
    requires
        D::BLOCK == BLOCK,
        TableWriter::<BLOCK, BLOOM_BYTES, KEY_MAX>::shape_ok(),
        limit == pack(entry_views(points@), BLOCK as int).len(),
        base + limit <= u64::MAX,
    ensures
        ({
            let ps = entry_views(points@);
            let block = BLOCK as int;
            &&& same_outside(old(device).content(), final(device).content(), base as int, base + limit)
            &&& match r {
                Ok(w) => {
                    &&& run_fits::<D::Error>(base, k, ps, block, KEY_MAX)
                    &&& w.wf()
                    &&& w@.base == base
                    &&& w@.k == k
                    &&& w@.cur.len() == 0
                    &&& w@.groups == pack(ps, block)
                    &&& w@.all() == stored_all(ps)
                    &&& w@.on(final(device).content(), block)
                    &&& w@.imaged(final(device).content(), true, block)
                },
                Err(e) => e is Device || (e == Error::<D::Error>::TableTooLarge && !run_fits::<
                    D::Error,
                >(base, k, ps, block, KEY_MAX)),
            }
        }),
{
    let total: usize = points.len();
    let ghost es = entry_views(points@);
    let ghost block = BLOCK as int;
    let ghost c0 = device.content();
    let mut cs: CompressScratch<BLOCK> = CompressScratch::new();
    let mut w: TableWriter<BLOCK, BLOOM_BYTES, KEY_MAX> = TableWriter::new(
        base,
        k,
    ).with_block_limit(limit);
    let mut i: usize = 0;
    assert(es.take(0) =~= Seq::<Rec>::empty());
    while i < total
        invariant
            D::BLOCK == BLOCK,
            block == BLOCK,
            total == points@.len(),
            es == entry_views(points@),
            limit == pack(es, block).len(),
            base + limit <= u64::MAX,
            i <= total,
            cs.wf(),
            w.wf(),
            write_run::<D::Error>(base, k, limit, es.take(i as int), block, KEY_MAX) == Ok::<
                WriterV,
                Error<D::Error>,
            >(w@),
            c0 == old(device).content(),
            w@.on(device.content(), block),
            w@.imaged(device.content(), true, block),
            same_outside(c0, device.content(), base as int, base + limit),
        decreases total - i,
    {
        let e: SstEntry<'_> = points[i];
        let ghost v0 = w@;
        let ghost c1 = device.content();
        proof {
            assert(es.take(i + 1).drop_last() =~= es.take(i as int));
            assert(es.take(i + 1).last() == e@);
            law_plan_matches_writer::<D::Error>(base, k, limit, es.take(i as int), block, KEY_MAX);
            lemma_write_run_prefix::<D::Error>(base, k, limit, es, block, KEY_MAX, i + 1);
            assert(v0.all().len() == i);
            w.lemma_wf();
        }
        match w.push(device, e, Some(&mut cs)) {
            Ok(_) => {
                proof {
                    lemma_on_step(v0, w@, c1, device.content(), block);
                    lemma_imaged_step(v0, w@, c1, device.content(), block);
                }
            },
            Err(x) => {
                return Err(too_large(x));
            },
        }
        i = i + 1;
    }
    proof {
        assert(es.take(total as int) =~= es);
        law_plan_matches_writer::<D::Error>(base, k, limit, es, block, KEY_MAX);
    }
    let ghost v = w@;
    let ghost c1 = device.content();
    match w.seal_data(device, Some(&mut cs)) {
        Ok(_) => {},
        Err(x) => {
            return Err(too_large(x));
        },
    }
    proof {
        lemma_on_step(v, w@, c1, device.content(), block);
        lemma_imaged_step(v, w@, c1, device.content(), block);
        assert(w@.all() =~= v.all()) by {
            if v.cur.len() > 0 {
                assert(w@.groups.drop_last() =~= v.groups);
            }
        }
    }
    Ok(w)
}

/// Writes the table: the data section at `base`, then the rdel section
/// right after it, then bloom, index and footer.
fn write_flush<
    D: BlockDevice,
    const BLOCK: usize,
    const BLOOM_BYTES: usize,
    const KEY_MAX: usize,
>(
    device: &mut D,
    points: &[SstEntry<'_>],
    rdels: &[RdelEntry<'_>],
    base: u64,
    k: u8,
    limit: u64,
    rdel_min_seq: u64,
) -> (r: Result<(), Error<D::Error>>)
    requires
        D::BLOCK == BLOCK,
        TableWriter::<BLOCK, BLOOM_BYTES, KEY_MAX>::shape_ok(),
        crate::sstable::rdel::rdel_shape(BLOCK as int),
        k >= 1,
        ({
            let ps = entry_views(points@);
            let rs = rdel_views(rdels@);
            &&& limit == pack(ps, BLOCK as int).len()
            &&& base + limit + rpack(rs, BLOCK as int).len() + 3 <= u64::MAX
            &&& bounds_given(rs)
            &&& forall|i: int|
                0 <= i < rs.len() ==> rdel_check::<()>(#[trigger] rs[i], BLOCK as int) is Ok
            &&& rs.len() < u32::MAX
            &&& stored_all(ps) == ps
            &&& rdel_min_seq == rdels_low(rs)
        }),
    ensures
        ({
            let ps = entry_views(points@);
            let rs = rdel_views(rdels@);
            let block = BLOCK as int;
            let run = RunV {
                base,
                groups: pack(ps, block),
                rgroups: rpack(rs, block),
                k,
                min_seq: seq_min(group_low(ps), rdels_low(rs)),
            };
            &&& same_outside(
                old(device).content(),
                final(device).content(),
                base as int,
                base + limit + rpack(rs, block).len() + 3,
            )
            &&& match r {
                Ok(()) => {
                    &&& run_fits::<D::Error>(base, k, ps, block, KEY_MAX)
                    &&& run.wf(block, BLOOM_BYTES as int)
                    &&& run.on(final(device).content(), block, BLOOM_BYTES as int)
                    &&& data_imaged(final(device).content(), base, run.groups, true, block)
                },
                Err(e) => e is Device || (e == Error::<D::Error>::TableTooLarge && !run_fits::<
                    D::Error,
                >(base, k, ps, block, KEY_MAX)),
            }
        }),
{
    let ghost ps = entry_views(points@);
    let ghost rs = rdel_views(rdels@);
    let ghost block = BLOCK as int;
    let ghost rg = rpack(rs, block);
    let ghost min = seq_min(group_low(ps), rdels_low(rs));
    let ghost run = RunV { base, groups: pack(ps, block), rgroups: rg, k, min_seq: min };
    let mut w: TableWriter<BLOCK, BLOOM_BYTES, KEY_MAX> = match write_data(
        device,
        points,
        base,
        k,
        limit,
    ) {
        Ok(w) => w,
        Err(e) => {
            return Err(e);
        },
    };
    let ghost v = w@;
    let ghost c1 = device.content();
    proof {
        w.lemma_wf();
        crate::sstable::rdel::law_rpack(rs, block);
        lemma_checks::<D::Error>(rs, block);
    }
    let rdel_base: u64 = base + limit;
    let written: u32 = match write_rdel_blocks::<D, BLOCK>(device, rdel_base, rdels) {
        Ok(n) => n,
        Err(e) => {
            return Err(too_large(e));
        },
    };
    let ghost c2 = device.content();
    match w.finish_meta(device, written, rdel_min_seq) {
        Ok(_) => {},
        Err(e) => {
            return Err(too_large(e));
        },
    }
    let ghost c3 = device.content();
    proof {
        assert(run_of(v, rg, min) == run);
        assert(run.meta_on(c3, block, BLOOM_BYTES as int));
        assert(run.recs() =~= v.all()) by {
            assert(v.cur =~= Seq::<Rec>::empty());
        }
        assert forall|b: int| 0 <= b < run.groups.len() implies crate::sstable::format::is_data_block(
            c3[(run.base + b) as u64],
            #[trigger] run.groups[b],
            block,
        ) by {
            assert(c1[(base + b) as u64] == c3[(base + b) as u64]);
            assert(v.groups[b] == run.groups[b]);
        }
        assert forall|b: int| 0 <= b < run.groups.len() implies c3[(base + b) as u64]
            == data_image(#[trigger] run.groups[b], true, block) by {
            assert(c1[(base + b) as u64] == c3[(base + b) as u64]);
            assert(v.groups[b] == run.groups[b]);
        }
        assert forall|j: int| 0 <= j < rg.len() implies c3[(run.rdel_at() + j) as u64]
            == crate::sstable::format::rdel_block(#[trigger] rg[j], block) by {
            assert(c2[(rdel_base + j) as u64] == crate::sstable::format::rdel_block(rg[j], block));
        }
        assert forall|j: int| 0 <= j < rg.len() implies crate::sstable::format::rgroup_ok(
            #[trigger] rg[j],
            block,
        ) by {}
    }
    Ok(())
}

/// Tombstones that each can be stored can be stored together.
proof fn lemma_checks<E>(rs: Seq<RdelV>, block: int)
    requires
        forall|i: int| 0 <= i < rs.len() ==> rdel_check::<()>(#[trigger] rs[i], block) is Ok,
    ensures
        rdels_check::<E>(rs, block) is Ok,
    decreases rs.len(),
{
    if rs.len() > 0 {
        let d = rs.drop_last();
        assert forall|i: int| 0 <= i < d.len() implies rdel_check::<()>(
            #[trigger] d[i],
            block,
        ) is Ok by {
            assert(rdel_check::<()>(rs[i], block) is Ok);
        }
        lemma_checks::<E>(d, block);
        assert(rdel_check::<()>(rs[rs.len() - 1], block) is Ok);
    }
}

/// Blocks outside the slot and the manifest copy stay.
pub open spec fn touches_only(
    a: Map<u64, Seq<u8>>,
    b: Map<u64, Seq<u8>>,
    lo: int,
    hi: int,
    copy: int,
    copy_end: int,
) -> bool {
    forall|id: u64|
        !(lo <= id < hi) && !(copy <= id < copy_end) ==> #[trigger] a[id] == b[id]
}

impl<
    D: BlockDevice,
    const BLOCK: usize,
    const KEY_MAX: usize,
    const VAL_MAX: usize,
    const CAP: usize,
    const ARENA: usize,
    const LEVELS: usize,
    const TABLES: usize,
    const BLOOM_BYTES: usize,
    const CACHE: usize,
> Db<D, BLOCK, KEY_MAX, VAL_MAX, CAP, ARENA, LEVELS, TABLES, BLOOM_BYTES, CACHE> {
    /// Bloom probes per key of a table of `n` points.
    pub open spec fn probes(n: int) -> u8 {
        probes_for(BLOOM_BYTES * 8, n) as u8
    }

    /// The WAL region is used up.
    pub open spec fn wal_full(&self) -> bool {
        self.wal_next() >= self.config().wal_end
    }

    /// Why a flush is refused before any table I/O.
    pub open spec fn flush_stop(&self) -> Option<Error<D::Error>> {
        if self.man().levels[0].len() >= TABLES {
            Some(self.no_room_error())
        } else {
            match pack_check::<D::Error>(points_of(self.mem()), BLOCK as int) {
                Err(x) => Some(x),
                Ok(()) => if !self.has_room() {
                    Some(self.no_room_error())
                } else {
                    None
                },
            }
        }
    }

    /// Why a flush into the slot at `base` fails short of its commit.
    pub open spec fn flush_fails(&self, base: u64) -> Option<Error<D::Error>> {
        let ps = points_of(self.mem());
        if !run_fits::<D::Error>(
            base,
            Self::probes(ps.len() as int),
            ps,
            BLOCK as int,
            KEY_MAX,
        ) {
            Some(Error::TableTooLarge)
        } else if self.man().next_table_id == u32::MAX {
            Some(Error::CounterExhausted)
        } else if total_tables(self.man().levels) >= LEVELS * TABLES || self.man().seq
            == u64::MAX {
            Some(Error::NoSpace)
        } else {
            None
        }
    }

    /// The manifest with the WAL head moved past what was flushed (back to
    /// the start of a used-up region), and every issued sequence noted.
    pub open spec fn past_wal(&self, v: ManV) -> ManV {
        ManV {
            wal_head: if self.wal_full() {
                self.config().wal_start
            } else {
                self.wal_next()
            },
            flushed_seq: seq_max(self.issued_seq(), v.flushed_seq),
            seq_high: seq_max(self.issued_seq(), v.seq_high),
            ..v
        }
    }

    /// The manifest after a flush into the slot at `base`.
    pub open spec fn flush_man(&self, base: u64) -> ManV {
        let m = self.man();
        next_copy(
            self.past_wal(
                ManV {
                    next_table_id: (m.next_table_id + 1) as u32,
                    levels: m.levels.update(
                        0,
                        m.levels[0].push(
                            flush_tab(self.mem(), m.next_table_id, base, BLOCK as int),
                        ),
                    ),
                    ..m
                },
            ),
        )
    }

    /// Only the device's blocks differ, in the slot and the next manifest
    /// copy.
    pub open spec fn wrote_aside(&self, o: &Self, lo: int, hi: int) -> bool {
        &&& self.mem() == o.mem()
        &&& self.man() == o.man()
        &&& self.issued_seq() == o.issued_seq()
        &&& self.snaps() == o.snaps()
        &&& self.is_opened() == o.is_opened()
        &&& self.config() == o.config()
        &&& self.slot_map() == o.slot_map()
        &&& self.wal_next() == o.wal_next()
        &&& self.job() == o.job()
        &&& self.job_slots() == o.job_slots()
        &&& self.images() == o.images()
        &&& touches_only(
            o.content(),
            self.content(),
            lo,
            hi,
            o.copy_at(),
            o.copy_at() + Self::stride(),
        )
    }

    /// The device holds the memtable as a table at `base`, its data blocks
    /// compressed where it pays.
    pub open spec fn flush_stored(&self, c: Map<u64, Seq<u8>>, base: u64) -> bool {
        let k = Self::probes(points_of(self.mem()).len() as int);
        let run = flush_run(self.mem(), base, k, BLOCK as int);
        &&& run.wf(BLOCK as int, BLOOM_BYTES as int)
        &&& run.on(c, BLOCK as int, BLOOM_BYTES as int)
        &&& data_imaged(c, base, run.groups, true, BLOCK as int)
    }

    /// What a flush of a filled memtable into slot `s` does.
    pub open spec fn flushed_into(a: &Self, b: &Self, s: u32, r: Result<(), Error<D::Error>>) -> bool {
        let lo = a.slot_map().base_of(s as int);
        let hi = a.slot_map().base_of(s + 1);
        match r {
            Ok(()) => {
                &&& a.flush_fails(lo as u64) is None
                &&& b.mem() == Seq::<Rec>::empty()
                &&& b.man() == a.flush_man(lo as u64)
                &&& b.issued_seq() == a.issued_seq()
                &&& b.snaps() == a.snaps()
                &&& b.is_opened()
                &&& b.config() == a.config()
                &&& b.job() == a.job()
                &&& b.job_slots() == a.job_slots()
                &&& b.images() == a.images()
                &&& b.wal_next() == b.man().wal_head
                &&& b.slot_map().same_layout(&a.slot_map())
                &&& forall|i: u32| #[trigger]
                    b.slot_map().used(i) == (a.slot_map().used(i) || i == s)
                &&& forall|i: u32| #[trigger]
                    b.slot_map().reserved(i) == a.slot_map().reserved(i)
                &&& b.slot_map().next_hint() == (s + 1) % (a.slot_map().slot_count() as int)
                &&& touches_only(
                    a.content(),
                    b.content(),
                    lo,
                    hi,
                    a.copy_at(),
                    a.copy_at() + Self::stride(),
                )
                &&& holds_copy(b.content(), b.man(), a.copy_at(), BLOCK as nat)
                &&& a.flush_stored(b.content(), lo as u64)
                &&& b.kept() == b.content()
            },
            Err(e) => {
                &&& e is Device || a.flush_fails(lo as u64) == Some(e)
                &&& b.wrote_aside(a, lo, hi)
            },
        }
    }

    /// What a flush with an empty memtable does: it wraps a used-up WAL.
    pub open spec fn wrapped(a: &Self, b: &Self, r: Result<(), Error<D::Error>>) -> bool {
        if !a.wal_full() {
            &&& r is Ok || (r matches Err(e) && e is Device)
            &&& b.same_state(a)
            &&& b.images() == a.images()
        } else {
            match r {
                Ok(()) => {
                    &&& a.man().seq < u64::MAX
                    &&& b.man() == next_copy(a.past_wal(a.man()))
                    &&& b.wal_next() == a.config().wal_start
                    &&& b.mem() == a.mem()
                    &&& b.issued_seq() == a.issued_seq()
                    &&& b.snaps() == a.snaps()
                    &&& b.is_opened()
                    &&& b.config() == a.config()
                    &&& b.job() == a.job()
                    &&& b.job_slots() == a.job_slots()
                    &&& b.images() == a.images()
                    &&& b.slot_map() == a.slot_map()
                    &&& touches_only(
                        a.content(),
                        b.content(),
                        0,
                        0,
                        a.copy_at(),
                        a.copy_at() + Self::stride(),
                    )
                    &&& holds_copy(b.content(), b.man(), a.copy_at(), BLOCK as nat)
                    &&& b.kept() == b.content()
                },
                Err(e) => {
                    &&& e is Device || (e == Error::<D::Error>::NoSpace && a.man().seq == u64::MAX)
                    &&& b.wrote_aside(a, 0, 0)
                },
            }
        }
    }

    /// What a flush does.
    pub open spec fn flushed(a: &Self, b: &Self, r: Result<(), Error<D::Error>>) -> bool {
        if !a.is_opened() {
            r == Err::<(), Error<D::Error>>(Error::NotOpen) && *b == *a
        } else if a.mem().len() == 0 {
            Self::wrapped(a, b, r)
        } else {
            match a.flush_stop() {
                Some(x) => {
                    &&& r matches Err(e) && (e == x || e is Device)
                    &&& b.same_state(a)
                    &&& b.images() == a.images()
                },
                None => {
                    ||| (r matches Err(e) && e is Device && b.same_state(a) && b.images()
                        == a.images())
                    ||| exists|s: u32| #[trigger]
                        next_free(a.slot_map(), s) && Self::flushed_into(a, b, s, r)
                },
            }
        }
    }

    /// Builds the flushed table's [`TableRef`]. Key bounds and sequences
    /// cover both sections: range tombstones participate in table pruning
    /// and winner selection.
    fn flush_tref(
        id: u32,
        base: u64,
        total: u64,
        plan: &TablePlan<KEY_MAX>,
        rdel_plan: &RdelPlan<'_>,
    ) -> (r: Result<TableRef<KEY_MAX>, Error<D::Error>>)
        requires
            plan.first_key.wf(),
            plan.last_key.wf(),
            rdel_plan.first matches Some(s) ==> s@.len() <= KEY_MAX && s@.len() <= 0xFFFF,
            rdel_plan.max_end matches Some(s) ==> s@.len() <= KEY_MAX && s@.len() <= 0xFFFF,
        ensures
            if total > u32::MAX || plan.entry_count > u32::MAX {
                r == Err::<TableRef<KEY_MAX>, Error<D::Error>>(Error::TableTooLarge)
            } else {
                r matches Ok(t) && t.wf() && t@ == (TabV {
                    id,
                    first_block: base,
                    block_count: total as u32,
                    first_key: lesser(
                        plan.first_key@,
                        match rdel_plan.first {
                            Some(s) => s@,
                            None => Seq::empty(),
                        },
                    ),
                    last_key: greater(
                        plan.last_key@,
                        match rdel_plan.max_end {
                            Some(s) => s@,
                            None => Seq::empty(),
                        },
                    ),
                    max_seq: seq_max(plan.max_seq, rdel_plan.max_seq),
                    min_seq: seq_min(plan.min_seq, rdel_plan.min_seq),
                    entry_count: plan.entry_count as u32,
                    rdel_blocks: rdel_plan.blocks,
                })
            },
    {
        let rdel_first: KeyBound<KEY_MAX> = match rdel_plan.first {
            Some(s) => match KeyBound::from_slice(s) {
                Some(k) => k,
                None => KeyBound::empty(),
            },
            None => KeyBound::empty(),
        };
        let rdel_last: KeyBound<KEY_MAX> = match rdel_plan.max_end {
            Some(s) => match KeyBound::from_slice(s) {
                Some(k) => k,
                None => KeyBound::empty(),
            },
            None => KeyBound::empty(),
        };
        if total > 0xFFFF_FFFF || plan.entry_count > 0xFFFF_FFFF {
            return Err(Error::TableTooLarge);
        }
        Ok(
            TableRef {
                id,
                first_block: base,
                block_count: total as u32,
                first_key: plan.first_key.min(rdel_first),
                last_key: plan.last_key.max(rdel_last),
                max_seq: if rdel_plan.max_seq > plan.max_seq {
                    rdel_plan.max_seq
                } else {
                    plan.max_seq
                },
                min_seq: if rdel_plan.min_seq < plan.min_seq {
                    rdel_plan.min_seq
                } else {
                    plan.min_seq
                },
                entry_count: plan.entry_count as u32,
                rdel_blocks: rdel_plan.blocks,
            },
        )
    }

    /// Every memtable entry keeps within the limits.
    pub(super) proof fn lemma_mem_ok(&self)
        requires
            self.wf(),
        ensures
            forall|i: int|
                0 <= i < self.mem().len() ==> mem_rec_ok(
                    #[trigger] self.mem()[i],
                    KEY_MAX as int,
                    VAL_MAX as int,
                ),
            self.mem().len() <= CAP,
            key_sorted(self.mem()),
            crate::memtable::arena_used(self.mem()) <= ARENA,
    {
        self.table.lemma_wf();
        let mem = self.mem();
        assert forall|i: int| 0 <= i < mem.len() implies mem_rec_ok(
            #[trigger] mem[i],
            KEY_MAX as int,
            VAL_MAX as int,
        ) by {
            assert(MemTable::<CAP, ARENA, KEY_MAX, VAL_MAX>::rec_ok(mem[i]));
        }
    }

    /// A table of the memtable fits a slot.
    pub(super) proof fn lemma_fits_slot(&self)
        requires
            self.wf(),
            self.is_opened(),
        ensures
            pack(points_of(self.mem()), BLOCK as int).len() + rpack(
                rdels_of(self.mem()),
                BLOCK as int,
            ).len() + 3 <= self.slot_map().blocks_per_slot(),
            pack(points_of(self.mem()), BLOCK as int).len() + rpack(
                rdels_of(self.mem()),
                BLOCK as int,
            ).len() + 3 <= CAP + 3,
            Self::shape(),
    {
        self.lemma_wf();
        self.lemma_mem_ok();
        let mem = self.mem();
        assert forall|i: int| 0 <= i < mem.len() implies (#[trigger] mem[i]).key.len() <= KEY_MAX
            && (if mem[i].range_del {
            mem[i].val.len() <= KEY_MAX
        } else {
            mem[i].val.len() <= VAL_MAX
        }) by {
            assert(mem_rec_ok(mem[i], KEY_MAX as int, VAL_MAX as int));
        }
        law_flush_fits(
            mem,
            BLOCK as int,
            CAP as int,
            ARENA as int,
            KEY_MAX as int,
            VAL_MAX as int,
        );
    }

    /// Plans the memtable's table, picks a slot, and writes it there.
    fn write_slot(&mut self) -> (r: Result<(u32, TableRef<KEY_MAX>), Error<D::Error>>)
        requires
            old(self).wf(),
            old(self).is_opened(),
            old(self).man().levels[0].len() < TABLES,
        ensures
            *final(self) == (Db { wal: final(self).wal, ..*old(self) }),
            final(self).wal.wf(),
            final(self).wal.same_region(&old(self).wal),
            final(self).wal.next() == old(self).wal.next(),
            final(self).wal.staged() == old(self).wal.staged(),
            match r {
                Ok((s, t)) => {
                    let base = old(self).slot_map().base_of(s as int) as u64;
                    let ps = points_of(old(self).mem());
                    let k = Self::probes(ps.len() as int);
                    let run = flush_run(old(self).mem(), base, k, BLOCK as int);
                    &&& old(self).flush_stop() is None
                    &&& next_free(old(self).slot_map(), s)
                    &&& t.wf()
                    &&& t@ == flush_tab(
                        old(self).mem(),
                        old(self).man().next_table_id,
                        base,
                        BLOCK as int,
                    )
                    &&& run_fits::<D::Error>(base, k, ps, BLOCK as int, KEY_MAX)
                    &&& run.wf(BLOCK as int, BLOOM_BYTES as int)
                    &&& run.on(final(self).content(), BLOCK as int, BLOOM_BYTES as int)
                    &&& data_imaged(final(self).content(), base, run.groups, true, BLOCK as int)
                    &&& same_outside(
                        old(self).content(),
                        final(self).content(),
                        old(self).slot_map().base_of(s as int),
                        old(self).slot_map().base_of(s + 1),
                    )
                },
                Err(e) => {
                    ||| final(self).wal.dev() == old(self).wal.dev() && old(self).flush_stop()
                        == Some(e)
                    ||| old(self).flush_stop() is None && exists|s: u32|
                        {
                            &&& #[trigger] next_free(old(self).slot_map(), s)
                            &&& same_outside(
                                old(self).content(),
                                final(self).content(),
                                old(self).slot_map().base_of(s as int),
                                old(self).slot_map().base_of(s + 1),
                            )
                            &&& e is Device || old(self).flush_fails(
                                old(self).slot_map().base_of(s as int) as u64,
                            ) == Some(e)
                        }
                },
            },
    {
        let ghost mem = self.mem();
        let ghost ps = points_of(mem);
        let ghost rs = rdels_of(mem);
        let ghost block = BLOCK as int;
        proof {
            self.lemma_wf();
            Self::lemma_shape();
            self.lemma_mem_ok();
            self.lemma_fits_slot();
            lemma_points_len(mem);
            lemma_parts_within(mem, KEY_MAX, VAL_MAX);
            lemma_rdels_store(rs, block, KEY_MAX);
            crate::sstable::rdel::law_rpack(rs, block);
            assert(rdels_fit(rs, block)) by {
                assert forall|i: int| 0 <= i < rs.len() implies crate::sstable::format::rdel_len(
                    #[trigger] rs[i],
                ) + crate::sstable::format::RDEL_TRAILER <= block by {
                    assert(rdel_check::<()>(rs[i], block) is Ok);
                }
            }
        }
        let (point_list, point_count): ([SstEntry<'_>; CAP], usize) = collect_points(&self.table);
        let points: &[SstEntry<'_>] = vstd::slice::slice_subrange(
            vstd::array::array_as_slice(&point_list),
            0,
            point_count,
        );
        let (rdel_list, rdel_count): ([RdelEntry<'_>; CAP], usize) = collect_rdels(&self.table);
        let rdels: &[RdelEntry<'_>] = vstd::slice::slice_subrange(
            vstd::array::array_as_slice(&rdel_list),
            0,
            rdel_count,
        );
        assert(points@ =~= point_list@.take(point_count as int));
        assert(rdels@ =~= rdel_list@.take(rdel_count as int));
        assert(rdel_views(rdels@).len() == rdels@.len());
        proof {
            assert forall|i: int| 0 <= i < ps.len() implies (#[trigger] ps[i]).key.len()
                <= KEY_MAX by {
                assert(rec_within(ps[i], KEY_MAX, VAL_MAX));
            }
            lemma_plan_check::<D::Error>(ps, block, KEY_MAX);
        }
        // Pass 1: pure computation of the table shape. Point entries and
        // range tombstones are planned separately: the rdel section sits
        // behind the data section on the device.
        let plan: TablePlan<KEY_MAX> = match plan_table::<D::Error, BLOCK, KEY_MAX>(
            points,
        ) {
            Ok(p) => p,
            Err(e) => {
                return Err(e);
            },
        };
        let rdel_plan: RdelPlan<'_> = match plan_rdel_blocks::<D::Error, BLOCK>(rdels) {
            Ok(p) => p,
            Err(e) => {
                return Err(e);
            },
        };
        let k: u8 = bloom_k(BLOOM_BYTES * 8, plan.entry_count);
        let total: u64 = rdel_plan.blocks as u64 + plan.data_blocks + 3;
        // Pick a free slot; it is claimed only once the manifest commit has
        // landed.
        let slot: u32 = match self.free_slot_for(total) {
            Ok(s) => s,
            Err(e) => {
                return Err(e);
            },
        };
        proof {
            self.slots.law_slots_tile(slot as int, slot + 1);
        }
        let base: u64 = self.slots.slot_base(slot);
        proof {
            assert(self.slots.base_of(slot + 1) <= self.config().tbl_end) by {
                self.slots.law_slots_tile(slot as int, self.slots.slot_count() as int);
            }
            if rs.len() > 0 {
                assert(rdel_within(rs[0], KEY_MAX));
                lemma_end_is(rs);
                let e = choose|e: int|
                    0 <= e < rs.len() && (#[trigger] rs[e]).end == rdels_end(rs)->0;
                assert(rdel_within(rs[e], KEY_MAX));
            }
        }
        let tref: TableRef<KEY_MAX> = match Self::flush_tref(
            self.manifest.next_table_id(),
            base,
            total,
            &plan,
            &rdel_plan,
        ) {
            Ok(t) => t,
            Err(e) => {
                assert(false);
                return Err(e);
            },
        };
        // Pass 2: stream the blocks.
        match write_flush::<D, BLOCK, BLOOM_BYTES, KEY_MAX>(
            self.wal.device_mut(),
            points,
            rdels,
            base,
            k,
            plan.data_blocks,
            rdel_plan.min_seq,
        ) {
            Ok(()) => {},
            Err(e) => {
                return Err(e);
            },
        }
        Ok((slot, tref))
    }

    /// Wraps the WAL when the region is exhausted and nothing is unflushed.
    ///
    /// The `wal_head` move rides a manifest commit, so it stays atomic with
    /// the flush; stale pre-wrap blocks are skipped at recovery by the
    /// sequence floor.
    fn wrap_wal_if_full(&mut self) -> (r: Result<(), Error<D::Error>>)
        requires
            old(self).wf(),
            old(self).is_opened(),
            old(self).mem().len() == 0,
        ensures
            final(self).wf(),
            Self::wrapped(old(self), final(self), r),
            old(self).sound() ==> final(self).sound() && final(self).reads_as(old(self)),
    {
        if self.wal.next_block() < self.cfg.wal_end {
            return Ok(());
        }
        // Safe: the memtable is empty, and every WAL record not yet flushed
        // into a table is replayed into the memtable at open, so no live
        // records exist. (Stale pre-wrap blocks may still sit between
        // `wal_head` and the append position; the sequence floor skips them
        // at recovery.)
        proof {
            self.lemma_wf();
        }
        let mut staged: Manifest<LEVELS, TABLES, KEY_MAX> = self.manifest.duplicate();
        staged.set_wal_head(self.cfg.wal_start);
        // Every issued mutation has left the WAL: the memtable is empty.
        staged.note_flushed(self.next_seq);
        assert(staged@ == self.past_wal(self.man()));
        match self.commit_manifest(staged) {
            Ok(()) => {},
            Err(e) => {
                proof {
                    Self::lemma_open_kept(old(self), self);
                    if old(self).sound() {
                        Self::lemma_copy_reads(old(self), self);
                    }
                }
                return Err(e);
            },
        }
        self.wal.reset_to(self.cfg.wal_start);
        proof {
            assert(self.snaps() == old(self).snaps());
            assert(self.open_wf());
            if old(self).sound() {
                Self::lemma_copy_reads(old(self), self);
            }
        }
        Ok(())
    }

    /// Flushes the memtable into a new `SSTable` and commits the manifest.
    ///
    /// Protocol: commit the WAL (every acked mutation is durable), plan the
    /// table, stream its blocks, commit the manifest (the single atomic
    /// visibility point), clear the memtable. A crash before the manifest
    /// commit leaves the old manifest plus a replayable WAL; a crash after
    /// leaves the new state. Never a mix.
    ///
    /// The table goes into a free slot of the table region (see
    /// [`SlotMap`]), claimed only once the manifest commit lands, so a
    /// returned I/O error leaves the in-memory state exactly as it was and
    /// the flush can simply be retried.
    ///
    /// When the WAL region is exhausted, the flush wraps it: every record is
    /// flushed at that point, so `wal_head` restarts at `wal_start` in the
    /// same atomic manifest commit, giving the WAL an unbounded lifetime.
    /// Stale pre-wrap blocks are skipped at recovery by the sequence floor.
    ///
    /// A flush with an empty memtable still commits the WAL and wraps it if
    /// full, and is otherwise a no-op.
    ///
    /// # Errors
    ///
    /// [`Error::NotOpen`] before [`open`](Db::open).
    /// [`Error::NeedsCompaction`] when level 0 is full, or no table slot
    /// is free beyond the compaction reserve and compaction can free one:
    /// run [`compact_step`](Db::compact_step) until
    /// [`Progress::Done`](crate::Progress::Done), then retry.
    /// [`Error::RegionFull`] when no slot is free and compaction has
    /// nothing to do. [`Error::TableTooLarge`] when the table's index would
    /// overflow its block. [`Error::NoSpace`] when a single entry fits no
    /// block, or the manifest cannot take another table or commit.
    /// [`Error::CounterExhausted`] when table ids are used up.
    /// [`Error::Device`] on I/O failure.
    pub fn flush(&mut self) -> (r: Result<(), Error<D::Error>>)
        requires
            old(self).wf(),
        ensures
            final(self).wf(),
            Self::flushed(old(self), final(self), r),
            old(self).sound() ==> final(self).sound() && final(self).reads_as(old(self)),
    {
        match self.ensure_open() {
            Ok(()) => {},
            Err(e) => {
                return Err(e);
            },
        }
        proof {
            self.lemma_wf();
        }
        // Every acked mutation must be durable in the WAL or the new table.
        let committed = self.wal.commit();
        proof {
            assert forall|x: u64| old(self).synced(x) implies #[trigger] self.synced(x) by {
                assert(synced(&old(self).wal.dev(), x));
                assert(synced(&self.wal.dev(), x));
            }
        }
        match committed {
            Ok(()) => {},
            Err(e) => {
                proof {
                    Self::lemma_open_kept(old(self), self);
                    if old(self).sound() {
                        Self::lemma_copy_reads(old(self), self);
                    }
                }
                return Err(e);
            },
        }
        proof {
            Self::lemma_open_kept(old(self), self);
            if old(self).sound() {
                Self::lemma_copy_reads(old(self), self);
            }
        }
        let ghost a = *self;
        if self.table.is_empty() {
            // Still a no-op for the table region, but the WAL may need
            // wrapping after earlier flushes filled it.
            return self.wrap_wal_if_full();
        }
        // Fail before doing I/O when level 0 cannot take another table;
        // `add_l0_table` re-checks authoritatively below.
        if self.manifest.l0_is_full() {
            return Err(self.no_room());
        }
        let (slot, tref): (u32, TableRef<KEY_MAX>) = match self.write_slot() {
            Ok(p) => p,
            Err(e) => {
                proof {
                    Self::lemma_open_kept(&a, self);
                    if self.content() == a.content() {
                        if a.sound() {
                            Self::lemma_copy_reads(&a, self);
                        }
                    } else {
                        let s = choose|s: u32|
                            {
                                &&& #[trigger] next_free(a.slot_map(), s)
                                &&& same_outside(
                                    a.content(),
                                    self.content(),
                                    a.slot_map().base_of(s as int),
                                    a.slot_map().base_of(s + 1),
                                )
                                &&& e is Device || a.flush_fails(
                                    a.slot_map().base_of(s as int) as u64,
                                ) == Some(e)
                            };
                        assert(Self::flushed_into(&a, self, s, Err(e)));
                        if a.sound() {
                            Self::lemma_aside_reads(&a, self, s);
                        }
                    }
                }
                return Err(e);
            },
        };
        let ghost mid = *self;
        proof {
            Self::lemma_open_kept(&a, self);
            if a.sound() {
                Self::lemma_aside_reads(&a, self, slot);
            }
        }
        // The manifest commit is the atomic visibility point. The change is
        // staged and applied in memory only once the commit lands, so a
        // returned I/O error leaves the in-memory state exactly as it was
        // and the flush can simply be retried.
        let mut staged: Manifest<LEVELS, TABLES, KEY_MAX> = self.manifest.duplicate();
        match staged.bump_table_id::<D::Error>() {
            Ok(()) => {},
            Err(_) => {
                assert(Self::flushed_into(&a, self, slot, Err(Error::CounterExhausted)));
                return Err(Error::CounterExhausted);
            },
        }
        match staged.add_l0_table::<D::Error>(tref) {
            Ok(()) => {},
            Err(e) => {
                assert(Self::flushed_into(&a, self, slot, Err(e)));
                return Err(e);
            },
        }
        // Advance the WAL head past the flushed records; wrap the region
        // when it is exhausted. Folded into this same atomic commit, so no
        // extra crash window opens between the wrap and its durability.
        let wrap: bool = self.wal.next_block() >= self.cfg.wal_end;
        staged.set_wal_head(
            if wrap {
                self.cfg.wal_start
            } else {
                self.wal.next_block()
            },
        );
        // Every issued mutation is now in a table or behind `wal_head`:
        // raise the persisted replay floor with this same commit.
        staged.note_flushed(self.next_seq);
        let ghost base = a.slot_map().base_of(slot as int) as u64;
        assert(next_copy(staged@) == a.flush_man(base));
        match self.commit_manifest(staged) {
            Ok(()) => {},
            Err(e) => {
                proof {
                    Self::lemma_open_kept(&a, self);
                    assert(Self::flushed_into(&a, self, slot, Err(e)));
                    if a.sound() {
                        Self::lemma_aside_reads(&a, self, slot);
                    }
                }
                return Err(e);
            },
        }
        // Commit point passed: the change is applied; claim the slot.
        self.slots.claim(slot);
        // The flushed contents now live in the table; drop the memtable.
        self.table.clear();
        if wrap {
            self.wal.reset_to(self.cfg.wal_start);
        }
        proof {
            assert(self.snaps() == a.snaps());
            a.lemma_copy_at();
            a.lemma_flush_sits(slot);
            Self::lemma_run_stays(&a, &mid, self, slot);
            assert(Self::flushed_into(&a, self, slot, Ok(())));
            Self::lemma_flush_open(&a, self, slot);
            if a.sound() {
                Self::lemma_flush_reads(&a, self, slot);
            }
        }
        Ok(())
    }

    /// The manifest commit leaves the written table.
    proof fn lemma_run_stays(a: &Self, mid: &Self, b: &Self, s: u32)
        requires
            a.wf(),
            a.is_opened(),
            next_free(a.slot_map(), s),
            same_outside(mid.content(), b.content(), a.copy_at(), a.copy_at() + Self::stride()),
            ({
                let base = a.slot_map().base_of(s as int) as u64;
                let k = Self::probes(points_of(a.mem()).len() as int);
                let run = flush_run(a.mem(), base, k, BLOCK as int);
                &&& run.wf(BLOCK as int, BLOOM_BYTES as int)
                &&& run.on(mid.content(), BLOCK as int, BLOOM_BYTES as int)
                &&& data_imaged(mid.content(), base, run.groups, true, BLOCK as int)
            }),
        ensures
            ({
                let base = a.slot_map().base_of(s as int) as u64;
                let k = Self::probes(points_of(a.mem()).len() as int);
                let run = flush_run(a.mem(), base, k, BLOCK as int);
                &&& run.on(b.content(), BLOCK as int, BLOOM_BYTES as int)
                &&& data_imaged(b.content(), base, run.groups, true, BLOCK as int)
            }),
    {
        let base = a.slot_map().base_of(s as int) as u64;
        let k = Self::probes(points_of(a.mem()).len() as int);
        let run = flush_run(a.mem(), base, k, BLOCK as int);
        let c0 = mid.content();
        let c1 = b.content();
        let block = BLOCK as int;
        a.lemma_copy_at();
        a.lemma_flush_sits(s);
        a.lemma_fits_slot();
        a.lemma_wf();
        a.slot_map().law_slots_tile(s as int, s + 1);
        let hi = base + run.groups.len() + run.rgroups.len() + 3;
        assert forall|id: u64| base <= id < hi implies #[trigger] c0[id] == c1[id] by {}
        assert forall|g: int| 0 <= g < run.groups.len() implies crate::sstable::format::is_data_block(
            c1[(run.base + g) as u64],
            #[trigger] run.groups[g],
            block,
        ) by {
            assert(c0[(run.base + g) as u64] == c1[(run.base + g) as u64]);
        }
        assert forall|g: int| 0 <= g < run.groups.len() implies c1[(base + g) as u64]
            == data_image(#[trigger] run.groups[g], true, block) by {
            assert(c0[(base + g) as u64] == c1[(base + g) as u64]);
        }
        assert forall|j: int| 0 <= j < run.rgroups.len() implies c1[(run.rdel_at() + j) as u64]
            == crate::sstable::format::rdel_block(#[trigger] run.rgroups[j], block) by {
            assert(c0[(run.rdel_at() + j) as u64] == c1[(run.rdel_at() + j) as u64]);
        }
        assert(c0[run.bloom_at() as u64] == c1[run.bloom_at() as u64]);
        assert(c0[(run.bloom_at() + 1) as u64] == c1[(run.bloom_at() + 1) as u64]);
        assert(c0[run.footer_at() as u64] == c1[run.footer_at() as u64]);
    }

    /// The table of a flush sits in its slot.
    pub(super) proof fn lemma_flush_sits(&self, s: u32)
        requires
            self.wf(),
            self.is_opened(),
            self.slot_map().is_free(s),
        ensures
            ({
                let base = self.slot_map().base_of(s as int);
                &&& 0 <= base <= u64::MAX
                &&& base < self.slot_map().base_of(s + 1)
                &&& self.slot_map().base_of(0) <= base
                &&& self.slot_map().base_of(s + 1) <= self.slot_map().base_of(
                    self.slot_map().slot_count() as int,
                )
                &&& sits(
                    self.slot_map(),
                    flush_tab(
                        self.mem(),
                        self.man().next_table_id,
                        base as u64,
                        BLOCK as int,
                    ),
                    s,
                )
            }),
    {
        self.lemma_fits_slot();
        self.lemma_wf();
        self.slot_map().law_slots_tile(s as int, s + 1);
        self.slot_map().law_slots_tile(s as int, self.slot_map().slot_count() as int);
        if s > 0 {
            self.slot_map().law_slots_tile(0, s as int);
        }
    }

    /// A flush leaves an open handle.
    proof fn lemma_flush_open(a: &Self, b: &Self, s: u32)
        requires
            a.wf(),
            a.is_opened(),
            b.slots.wf(),
            next_free(a.slot_map(), s),
            Self::flushed_into(a, b, s, Ok(())),
        ensures
            b.open_wf(),
    {
        let base = a.slot_map().base_of(s as int) as u64;
        let t = flush_tab(a.mem(), a.man().next_table_id, base, BLOCK as int);
        let l0 = a.man().levels;
        let l1 = b.man().levels;
        a.lemma_wf();
        let n = l0[0].len() as int;
        assert(b.slots_laid()) by {
            assert(b.slot_map().base_of(0) == a.slot_map().base_of(0));
            assert(b.slot_map().base_of(LEVELS * TABLES) == a.slot_map().base_of(LEVELS * TABLES));
        }
        assert forall|i: u32| !(b.slot_map().used(i) && #[trigger] b.slot_map().reserved(i)) by {
            assert(b.slot_map().reserved(i) == a.slot_map().reserved(i));
            assert(b.slot_map().used(i) == (a.slot_map().used(i) || i == s));
        }
        if !b.job().0 {
            assert forall|i: u32| !#[trigger] b.slot_map().reserved(i) by {
                assert(b.slot_map().reserved(i) == a.slot_map().reserved(i));
            }
        }

    }

    /// The new table joins the live ones in a slot of its own.
    pub(super) proof fn lemma_flush_placed(a: &Self, b: &Self, s: u32)
        requires
            a.wf(),
            a.is_opened(),
            placed(a.slot_map(), a.man().levels),
            next_free(a.slot_map(), s),
            Self::flushed_into(a, b, s, Ok(())),
        ensures
            placed(b.slot_map(), b.man().levels),
    {
        let base = a.slot_map().base_of(s as int) as u64;
        let t = flush_tab(a.mem(), a.man().next_table_id, base, BLOCK as int);
        let l0 = a.man().levels;
        a.lemma_wf();
        a.lemma_flush_sits(s);
        let n = l0[0].len() as int;
        lemma_place_insert(a.slot_map(), b.slot_map(), l0, 0, n, t, s);
        assert(l0[0].insert(n, t) =~= l0[0].push(t));
    }

    /// Every read gives what it gave before the flush.
    proof fn lemma_flush_read(
        a: &Self,
        b: &Self,
        s: u32,
        key: Seq<u8>,
        max_seq: u64,
        now: u64,
    )
        requires
            a.sound(),
            a.man().levels.len() >= 1,
            b.mem() == Seq::<Rec>::empty(),
            ({
                let base = a.slot_map().base_of(s as int) as u64;
                let t = flush_tab(a.mem(), a.man().next_table_id, base, BLOCK as int);
                let l0 = a.man().levels;
                &&& b.man().levels == l0.update(0, l0[0].push(t))
                &&& tab_recs(b.content(), t, Self::dims()) == points_of(a.mem())
                &&& tab_rdels(b.content(), t, Self::dims()) == rdels_of(a.mem())
                &&& forall|l: int, i: int|
                    at(l0, l, i) ==> same_blocks(
                        a.content(),
                        b.content(),
                        (#[trigger] l0[l][i]).first_block as int,
                        l0[l][i].first_block + l0[l][i].block_count,
                    )
            }),
        ensures
            b.value_at(key, max_seq, now) == a.value_at(key, max_seq, now),
    {
        let base = a.slot_map().base_of(s as int) as u64;
        let t = flush_tab(a.mem(), a.man().next_table_id, base, BLOCK as int);
        let d = Self::dims();
        let l0 = a.man().levels;
        let ro = read_order(l0);
        lemma_order_newest(l0, t);
        let e0 = mem_acc(Seq::<Rec>::empty(), key, max_seq);
        lemma_acc_concat(e0, b.content(), seq![t], ro, d, key, max_seq, None);
        lemma_acc_one(e0, b.content(), t, d, key, max_seq);
        lemma_mem_as_table(a.mem(), key, max_seq);
        assert forall|i: int| 0 <= i < ro.len() implies tab_sound(a.content(), #[trigger] ro[i], d)
            && same_blocks(
            a.content(),
            b.content(),
            ro[i].first_block as int,
            ro[i].first_block + ro[i].block_count,
        ) by {
            let (x, y) = super::place::lemma_read_order(l0, i);
            assert(tab_sound(a.content(), l0[x][y], d));
        }
        lemma_acc_kept(
            mem_acc(a.mem(), key, max_seq),
            a.content(),
            b.content(),
            ro,
            d,
            key,
            max_seq,
            None,
        );
    }

    /// A flush keeps the database sound and every read as it was: the new
    /// table is read first and holds what the memtable held.
    pub(super) proof fn lemma_flush_reads(a: &Self, b: &Self, s: u32)
        requires
            a.wf(),
            a.sound(),
            next_free(a.slot_map(), s),
            Self::flushed_into(a, b, s, Ok(())),
        ensures
            b.sound(),
            b.reads_as(a),
            ({
                let base = a.slot_map().base_of(s as int) as u64;
                let t = flush_tab(a.mem(), a.man().next_table_id, base, BLOCK as int);
                let l0 = a.man().levels;
                &&& b.man().levels == l0.update(0, l0[0].push(t))
                &&& tab_recs(b.content(), t, Self::dims()) == points_of(a.mem())
                &&& forall|l: int, i: int|
                    at(l0, l, i) ==> same_blocks(
                        a.content(),
                        b.content(),
                        (#[trigger] l0[l][i]).first_block as int,
                        l0[l][i].first_block + l0[l][i].block_count,
                    )
            }),
    {
        reveal(Db::tidy);
        let base = a.slot_map().base_of(s as int) as u64;
        let k = Self::probes(points_of(a.mem()).len() as int);
        let id = a.man().next_table_id;
        let t = flush_tab(a.mem(), id, base, BLOCK as int);
        let d = Self::dims();
        let run = flush_run(a.mem(), base, k, BLOCK as int);
        let l0 = a.man().levels;
        let l1 = b.man().levels;
        let n = l0[0].len() as int;
        a.lemma_wf();
        a.lemma_flush_sits(s);
        a.lemma_mem_ok();
        a.lemma_fits_slot();
        a.lemma_copy_at();
        lemma_flush_run(a.mem(), id, base, k, b.content(), d);
        lemma_tab_is(run, b.content(), t, d);
        lemma_tables_kept_both(
            a.slot_map(),
            a.images(),
            a.content(),
            b.content(),
            l0,
            d,
            s,
            a.copy_at(),
            a.copy_at() + Self::stride(),
        );
        assert forall|l: int, i: int| at(l1, l, i) implies tab_sound(
            b.content(),
            #[trigger] l1[l][i],
            d,
        ) && cached_ok(b.images(), b.content(), l1[l][i]) by {
            if l == 0 && i == n {
                assert(l1[l][i] == t);
                assert forall|x: u64| !#[trigger] b.images().dom().contains((t.id, x)) by {
                    if b.images().dom().contains((t.id, x)) {
                        assert(live_id(l0, t.id));
                        let (m, y) = choose|m: int, y: int|
                            at(l0, m, y) && (#[trigger] l0[m][y]).id == t.id;
                        assert(issued(l0[m][y].id, id));
                    }
                }
            } else {
                assert(l1[l][i] == l0[l][i]);
                assert(at(l0, l, i));
            }
        }
        assert(ids_ok(l1, b.man().next_table_id)) by {
            assert forall|l: int, i: int| at(l1, l, i) implies issued(
                (#[trigger] l1[l][i]).id,
                b.man().next_table_id,
            ) by {
                if !(l == 0 && i == n) {
                    assert(l1[l][i] == l0[l][i]);
                    assert(at(l0, l, i));
                    assert(issued(l0[l][i].id, id));
                }
            }
            assert forall|l: int, i: int, m: int, j: int|
                at(l1, l, i) && at(l1, m, j) && (#[trigger] l1[l][i]).id == (
                #[trigger] l1[m][j]).id implies l == m && i == j by {
                if !(l == 0 && i == n) {
                    assert(l1[l][i] == l0[l][i]);
                    assert(at(l0, l, i));
                    assert(issued(l0[l][i].id, id));
                }
                if !(m == 0 && j == n) {
                    assert(l1[m][j] == l0[m][j]);
                    assert(at(l0, m, j));
                    assert(issued(l0[m][j].id, id));
                }
            }
        }
        assert forall|x: (u32, u64)| #[trigger] b.images().dom().contains(x) implies live_id(
            l1,
            x.0,
        ) by {
            assert(live_id(l0, x.0));
            let (m, y) = choose|m: int, y: int| at(l0, m, y) && (#[trigger] l0[m][y]).id == x.0;
            assert(at(l1, m, y) && l1[m][y].id == x.0);
        }
        Self::lemma_flush_placed(a, b, s);
        lemma_top_flat(l0, a.issued_seq());
        lemma_top_flat(l1, a.issued_seq());
        lemma_parts_top(a.mem());
        assert forall|l: int, i: int| at(l1, l, i) implies (#[trigger] l1[l][i]).max_seq
            <= a.issued_seq() by {
            if l == 0 && i == n {
                assert(l1[l][i] == t);
            } else {
                assert(l1[l][i] == l0[l][i]);
                assert(at(l0, l, i));
            }
        }
        assert forall|key: Seq<u8>, max_seq: u64, now: u64| #[trigger]
            b.value_at(key, max_seq, now) == a.value_at(key, max_seq, now) by {
            Self::lemma_flush_read(a, b, s, key, max_seq, now);
        }
    }

    /// Every read gives the same.
    pub open spec fn reads_as(&self, o: &Self) -> bool {
        forall|key: Seq<u8>, max_seq: u64, now: u64| #[trigger]
            self.value_at(key, max_seq, now) == o.value_at(key, max_seq, now)
    }

    /// Blocks written aside leave the database sound and every read as it
    /// was.
    pub(super) proof fn lemma_aside_reads(a: &Self, b: &Self, s: u32)
        requires
            a.wf(),
            a.sound(),
            s < a.slot_map().slot_count(),
            !a.slot_map().used(s),
            b.is_opened(),
            b.mem() == a.mem(),
            b.issued_seq() == a.issued_seq(),
            b.config() == a.config(),
            b.wal_next() >= b.config().wal_start,
            b.man().levels == a.man().levels,
            b.man().next_table_id == a.man().next_table_id,
            b.man().flushed_seq <= b.issued_seq(),
            b.images() == a.images(),
            b.slot_map().same_layout(&a.slot_map()),
            forall|i: u32| #[trigger] b.slot_map().used(i) == a.slot_map().used(i),
            touches_only(
                a.content(),
                b.content(),
                a.slot_map().base_of(s as int),
                a.slot_map().base_of(s + 1),
                a.copy_at(),
                a.copy_at() + Self::stride(),
            ),
        ensures
            b.sound(),
            b.reads_as(a),
    {
        reveal(Db::tidy);
        Self::lemma_tidy_same(a, b);
        let d = Self::dims();
        let l0 = a.man().levels;
        a.lemma_wf();
        a.lemma_copy_at();
        lemma_tables_kept_both(
            a.slot_map(),
            a.images(),
            a.content(),
            b.content(),
            l0,
            d,
            s,
            a.copy_at(),
            a.copy_at() + Self::stride(),
        );
        assert forall|key: Seq<u8>, max_seq: u64, now: u64| #[trigger]
            b.value_at(key, max_seq, now) == a.value_at(key, max_seq, now) by {
            Self::lemma_same_tables_read(a, b, key, max_seq, now);
        }
    }

    /// A manifest copy written leaves the database sound and every read as
    /// it was.
    pub(super) proof fn lemma_copy_reads(a: &Self, b: &Self)
        requires
            a.wf(),
            a.sound(),
            b.is_opened(),
            b.mem() == a.mem(),
            b.issued_seq() == a.issued_seq(),
            b.config() == a.config(),
            b.wal_next() >= b.config().wal_start,
            b.man().levels == a.man().levels,
            b.man().next_table_id == a.man().next_table_id,
            b.man().flushed_seq <= b.issued_seq(),
            b.images() == a.images(),
            b.slot_map() == a.slot_map(),
            same_outside(
                a.content(),
                b.content(),
                a.copy_at(),
                a.copy_at() + Self::stride(),
            ),
        ensures
            b.sound(),
            b.reads_as(a),
    {
        reveal(Db::tidy);
        a.lemma_wf();
        a.lemma_copy_at();
        lemma_tables_kept(
            a.slot_map(),
            a.images(),
            a.content(),
            b.content(),
            a.man().levels,
            Self::dims(),
            a.copy_at(),
            a.copy_at() + Self::stride(),
        );
        assert forall|key: Seq<u8>, max_seq: u64, now: u64| #[trigger]
            b.value_at(key, max_seq, now) == a.value_at(key, max_seq, now) by {
            Self::lemma_same_tables_read(a, b, key, max_seq, now);
        }
    }

    /// Tables whose blocks stay are read alike.
    pub(super) proof fn lemma_same_tables_read(
        a: &Self,
        b: &Self,
        key: Seq<u8>,
        max_seq: u64,
        now: u64,
    )
        requires
            b.mem() == a.mem(),
            b.man().levels == a.man().levels,
            tables_ok(a.images(), a.content(), a.man().levels, Self::dims()),
            forall|l: int, i: int|
                at(a.man().levels, l, i) ==> same_blocks(
                    a.content(),
                    b.content(),
                    (#[trigger] a.man().levels[l][i]).first_block as int,
                    a.man().levels[l][i].first_block + a.man().levels[l][i].block_count,
                ),
        ensures
            b.value_at(key, max_seq, now) == a.value_at(key, max_seq, now),
    {
        let d = Self::dims();
        let l0 = a.man().levels;
        let ro = read_order(l0);
        assert forall|i: int| 0 <= i < ro.len() implies tab_sound(a.content(), #[trigger] ro[i], d)
            && same_blocks(
            a.content(),
            b.content(),
            ro[i].first_block as int,
            ro[i].first_block + ro[i].block_count,
        ) by {
            let (x, y) = super::place::lemma_read_order(l0, i);
            assert(tab_sound(a.content(), l0[x][y], d));
        }
        lemma_acc_kept(
            mem_acc(a.mem(), key, max_seq),
            a.content(),
            b.content(),
            ro,
            d,
            key,
            max_seq,
            None,
        );
    }
}

/// Sequences of points and tombstones are at most the memtable's highest.
proof fn lemma_parts_top(mem: Seq<Rec>)
    ensures
        group_top(points_of(mem)) <= top_seq(mem),
        rdels_top(rdels_of(mem)) <= top_seq(mem),
{
    let ps = points_of(mem);
    let rs = rdels_of(mem);
    lemma_group_top_is(ps);
    lemma_rdels_top_is(rs);
    if ps.len() > 0 {
        let j = choose|j: int| 0 <= j < ps.len() && (#[trigger] ps[j]).seq == group_top(ps);
        let i = lemma_points_from(mem, j);
        lemma_top_bound(mem, i);
    }
    if rs.len() > 0 {
        let j = choose|j: int| 0 <= j < rs.len() && (#[trigger] rs[j]).seq == rdels_top(rs);
        let i = lemma_rdels_of_from(mem, j);
        lemma_top_bound(mem, i);
    }
}

pub(super) proof fn lemma_group_top_is(es: Seq<Rec>)
    ensures
        es.len() == 0 ==> group_top(es) == 0,
        es.len() > 0 ==> exists|j: int|
            0 <= j < es.len() && (#[trigger] es[j]).seq == group_top(es),
    decreases es.len(),
{
    if es.len() > 0 {
        let d = es.drop_last();
        lemma_group_top_is(d);
        if es.last().seq > group_top(d) || d.len() == 0 {
            assert(es[es.len() - 1].seq == group_top(es));
        } else {
            let j = choose|j: int| 0 <= j < d.len() && (#[trigger] d[j]).seq == group_top(d);
            assert(es[j].seq == group_top(es));
        }
    }
}

pub(super) proof fn lemma_rdels_top_is(rs: Seq<RdelV>)
    ensures
        rs.len() == 0 ==> rdels_top(rs) == 0,
        rs.len() > 0 ==> exists|j: int|
            0 <= j < rs.len() && (#[trigger] rs[j]).seq == rdels_top(rs),
    decreases rs.len(),
{
    if rs.len() > 0 {
        let d = rs.drop_last();
        lemma_rdels_top_is(d);
        if rs.last().seq > rdels_top(d) || d.len() == 0 {
            assert(rs[rs.len() - 1].seq == rdels_top(rs));
        } else {
            let j = choose|j: int| 0 <= j < d.len() && (#[trigger] d[j]).seq == rdels_top(d);
            assert(rs[j].seq == rdels_top(rs));
        }
    }
}

/// The newest table of level 0 is read first.
proof fn lemma_order_newest(levels: Seq<Seq<TabV>>, t: TabV)
    requires
        levels.len() >= 1,
    ensures
        read_order(levels.update(0, levels[0].push(t))) == seq![t] + read_order(levels),
    decreases levels.len(),
{
    let up = levels.update(0, levels[0].push(t));
    if levels.len() == 1 {
        assert(up[0].reverse() =~= seq![t] + levels[0].reverse());
    } else {
        lemma_order_newest(levels.drop_last(), t);
        assert(up.drop_last() =~= levels.drop_last().update(0, levels.drop_last()[0].push(t)));
        assert(up.last() == levels.last());
        assert(read_order(up) =~= seq![t] + read_order(levels));
    }
}

/// One table.
proof fn lemma_acc_one(
    a: AccV,
    c: Map<u64, Seq<u8>>,
    t: TabV,
    d: DimsV,
    key: Seq<u8>,
    max_seq: u64,
)
    ensures
        acc_over(a, c, seq![t], d, key, max_seq, None) == acc_with(
            a,
            tab_recs(c, t, d),
            tab_rdels(c, t, d),
            key,
            max_seq,
        ),
{
    reveal_with_fuel(acc_over, 2);
    assert(seq![t].drop_last() =~= Seq::<TabV>::empty());
}

/// A memtable and a table of its entries are read alike.
proof fn lemma_mem_as_table(mem: Seq<Rec>, key: Seq<u8>, max_seq: u64)
    requires
        seqs_given(mem),
    ensures
        acc_with(
            mem_acc(Seq::empty(), key, max_seq),
            points_of(mem),
            rdels_of(mem),
            key,
            max_seq,
        ) == mem_acc(mem, key, max_seq),
{
    lemma_points_read(mem, key, max_seq);
    crate::compact::sift::lemma_first_at(mem, key, max_seq);
    let none = Seq::<Rec>::empty();
    assert(first_at(none, key, max_seq) is None);
    assert(rdels_of(none) =~= Seq::<RdelV>::empty());
    if first_at(mem, key, max_seq) is Some {
        let i = choose|i: int| #[trigger]
            crate::memtable::is_hit(mem, key, max_seq, i) && Some(mem[i]) == first_at(
                mem,
                key,
                max_seq,
            );
        assert(mem[i].seq >= 1);
    }
}

/// Tombstones within the key limit can be stored.
proof fn lemma_rdels_store(rs: Seq<RdelV>, block: int, key_max: usize)
    requires
        rdels_within(rs, key_max),
        key_max <= 0xFFFF,
        12 + 2 * key_max + 6 <= block,
    ensures
        forall|i: int| 0 <= i < rs.len() ==> rdel_check::<()>(#[trigger] rs[i], block) is Ok,
{
    assert forall|i: int| 0 <= i < rs.len() implies rdel_check::<()>(#[trigger] rs[i], block) is Ok by {
        assert(rdel_within(rs[i], key_max));
    }
}

} // verus!

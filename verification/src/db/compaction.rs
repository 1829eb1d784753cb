//! Compaction: job selection, the bounded merge step, and its commit.

use vstd::prelude::*;

use super::flush::{first_point, last_point};
use super::place::at;
use super::room::{hint_moved, next_free};
use super::select::{
    deepest_full, entries_of, inputs_of, is_bottom, is_outside_floor, picked, select_job_inputs,
    watermarks, JobInputs, PickV,
};
use super::Db;
use crate::cache::CachePort;
use crate::compact::bounds::{greater, greatest_end, least_start, lesser, RdelStats};
use crate::compact::cursor::{fault_error, stream_fails, table_stream, StreamV};
use crate::compact::merge::{
    blocks_apart, same_job, Compaction, Input, State, COMPACTION_KMAX, MAX_SNAPSHOTS,
};
use crate::compact::rdel_merge::{
    count_rdel_merge, input_sections, places_outside, rdel_output, rdel_stream, rdel_within,
    rdels_within, section_first, section_places, RStreamV, RdelMerger, ShadowV,
};
use crate::compact::sift::{sifted, zipped, KeepV};
use crate::device::{same_blocks, same_outside, BlockDevice};
use crate::error::Error;
use crate::manifest::{data_blocks_of, index_of_id, lead_below, TableRef};
use crate::manifest_format::TabV;
use crate::memtable::Rec;
use crate::sstable::bloom::bloom_k;
use crate::sstable::format::{group_low, group_top, RdelV, RDEL_TRAILER};
use crate::sstable::rdel::{
    law_rpack, lemma_rpack_mono, rdel_check, rdel_shape, rdels_low, rdels_top, rpack,
    rpacked_with, RdelWriter,
};
use crate::sstable::table::{section_on, RunV};
use crate::sstable::writer::{
    data_image, data_imaged, push_all, run_of, sealed_writer, seq_min, FinishedTable, TableWriter,
    WriterV,
};
use crate::wal::seq_max;

verus! {

/// A compaction job.
pub struct JobV {
    /// Level and reference of each input.
    pub inputs: Seq<(int, TabV)>,
    /// Level of the output.
    pub target: int,
    /// What the merge keeps by.
    pub keep: KeepV,
    /// Slot of the output.
    pub slot: u32,
    /// Its first block.
    pub base: u64,
    /// Data blocks the output may take.
    pub limit: u64,
    /// Bloom probes per key.
    pub k: u8,
    /// Range-tombstone blocks of the output.
    pub rdel_blocks: u32,
}

/// The job that a scratch holds.
pub open spec fn job_of<
    const BLOCK: usize,
    const KEY_MAX: usize,
    const VAL_MAX: usize,
    const BLOOM_BYTES: usize,
>(c: Compaction<BLOCK, KEY_MAX, VAL_MAX, BLOOM_BYTES>) -> JobV {
    JobV {
        inputs: inputs_of(c.inputs@, c.n_inputs as int),
        target: c.target_level as int,
        keep: c.keep(),
        slot: c.out_slot as u32,
        base: c.out_base,
        limit: c.writer@.limit,
        k: c.writer@.k,
        rdel_blocks: c.rdel_blocks,
    }
}

/// The scratch's cursors are over the data blocks of its inputs.
pub open spec fn windows_on<
    const BLOCK: usize,
    const KEY_MAX: usize,
    const VAL_MAX: usize,
    const BLOOM_BYTES: usize,
>(c: Compaction<BLOCK, KEY_MAX, VAL_MAX, BLOOM_BYTES>) -> bool {
    forall|i: int|
        0 <= i < c.n_inputs ==> {
            &&& (#[trigger] c.cursors@[i]).first() == c.inputs@[i].tref@.first_block
            &&& Some(c.cursors@[i].blocks()) == data_blocks_of(c.inputs@[i].tref@)
        }
}

/// What the inputs of a job yield.
pub open spec fn job_streams(
    c: Map<u64, Seq<u8>>,
    j: JobV,
    key_max: usize,
    val_max: usize,
) -> Seq<StreamV> {
    Seq::new(j.inputs.len(), |i: int| table_stream(c, j.inputs[i].1, key_max, val_max))
}

/// The entries that a job's output holds.
pub open spec fn job_recs(
    c: Map<u64, Seq<u8>>,
    j: JobV,
    key_max: usize,
    val_max: usize,
) -> Seq<Rec> {
    sifted(j.keep, None, zipped(job_streams(c, j, key_max, val_max)).recs)
}

/// The range-tombstone sections of a job's inputs.
pub open spec fn job_sections(c: Map<u64, Seq<u8>>, j: JobV, key_max: usize) -> Seq<RStreamV> {
    Seq::new(j.inputs.len(), |i: int| rdel_stream(c, j.inputs[i].1, key_max))
}

/// The range tombstones that a job's output holds.
pub open spec fn job_rdels(c: Map<u64, Seq<u8>>, j: JobV, key_max: usize) -> RStreamV {
    rdel_output(
        ShadowV { bottommost: j.keep.bottommost, oldest_snapshot: j.keep.oldest_snapshot },
        job_sections(c, j, key_max),
    )
}

/// The output's writer before the merge.
pub open spec fn job_start(j: JobV) -> WriterV {
    WriterV { base: j.base, k: j.k, limit: j.limit, groups: Seq::empty(), cur: Seq::empty() }
}

/// The output's data section, or what stops the merge.
pub open spec fn job_data<E>(
    c: Map<u64, Seq<u8>>,
    j: JobV,
    block: int,
    key_max: usize,
    val_max: usize,
) -> Result<WriterV, Error<E>> {
    let zs = zipped(job_streams(c, j, key_max, val_max));
    match push_all::<E>(job_start(j), job_recs(c, j, key_max, val_max), block, key_max) {
        Err(e) => Err(e),
        Ok(w) => match zs.fault {
            Some(f) => Err(fault_error::<E>(f, key_max, val_max)),
            None => if w.cur.len() > 0 && !(w.may_seal() && w.index_room(block)) {
                Err(Error::NoSpace)
            } else {
                Ok(sealed_writer(w))
            },
        },
    }
}

/// The job's output table, sealed.
pub open spec fn job_run(w: WriterV, rs: Seq<RdelV>, block: int) -> RunV {
    RunV {
        base: w.base,
        groups: w.groups,
        rgroups: rpack(rs, block),
        k: w.k,
        min_seq: seq_min(group_low(w.all()), rdels_low(rs)),
    }
}

/// The reference to the job's output table.
pub open spec fn job_tab(w: WriterV, rs: Seq<RdelV>, id: u32, block: int) -> TabV {
    let all = w.all();
    TabV {
        id,
        first_block: w.base,
        block_count: (w.groups.len() + rpack(rs, block).len() + 3) as u32,
        first_key: lesser(first_point(all), least_start(rs)),
        last_key: greater(last_point(all), greatest_end(rs)),
        max_seq: seq_max(group_top(all), rdels_top(rs)),
        min_seq: seq_min(group_low(all), rdels_low(rs)),
        entry_count: all.len() as u32,
        rdel_blocks: rpack(rs, block).len() as u32,
    }
}

/// The levels without the inputs.
pub open spec fn without(levels: Seq<Seq<TabV>>, inputs: Seq<(int, TabV)>) -> Seq<Seq<TabV>>
    decreases inputs.len(),
{
    if inputs.len() == 0 {
        levels
    } else {
        let ls = without(levels, inputs.drop_last());
        let (l, t) = inputs.last();
        let p = index_of_id(ls[l], t.id);
        if p < ls[l].len() {
            ls.update(l, ls[l].remove(p))
        } else {
            ls
        }
    }
}

/// The levels with one more table.
pub open spec fn joined_by(levels: Seq<Seq<TabV>>, l: int, t: TabV) -> Seq<Seq<TabV>> {
    levels.update(l, levels[l].insert(lead_below(levels[l], t.first_key), t))
}

/// Every input is a live table.
pub open spec fn inputs_live(levels: Seq<Seq<TabV>>, inputs: Seq<(int, TabV)>) -> bool {
    forall|i: int|
        0 <= i < inputs.len() ==> 0 <= (#[trigger] inputs[i]).0 < levels.len()
            && levels[inputs[i].0].contains(inputs[i].1)
}

/// No two inputs are one table: they stand in blocks of their own.
pub open spec fn inputs_once(inputs: Seq<(int, TabV)>) -> bool {
    forall|x: int, y: int|
        0 <= x < y < inputs.len() ==> (#[trigger] inputs[x]).1.first_block != (
        #[trigger] inputs[y]).1.first_block
}

/// The blocks of every input lie apart from `[lo, hi)`.
pub open spec fn inputs_apart(inputs: Seq<(int, TabV)>, lo: int, hi: int) -> bool {
    forall|i: int|
        0 <= i < inputs.len() ==> (#[trigger] inputs[i]).1.first_block + inputs[i].1.block_count
            <= lo || hi <= inputs[i].1.first_block
}

/// Every input's blocks are laid out as a table's.
pub open spec fn inputs_formed(inputs: Seq<(int, TabV)>) -> bool {
    forall|i: int| 0 <= i < inputs.len() ==> data_blocks_of((#[trigger] inputs[i]).1) is Some
}

/// Devices that agree on the inputs yield the same.
proof fn lemma_job_same_on(
    c0: Map<u64, Seq<u8>>,
    c1: Map<u64, Seq<u8>>,
    j: JobV,
    key_max: usize,
    val_max: usize,
)
    requires
        inputs_formed(j.inputs),
        forall|i: int|
            0 <= i < j.inputs.len() ==> (#[trigger] j.inputs[i]).1.first_block
                + j.inputs[i].1.block_count <= u64::MAX && same_blocks(
                c0,
                c1,
                j.inputs[i].1.first_block as int,
                j.inputs[i].1.first_block + j.inputs[i].1.block_count,
            ),
    ensures
        job_streams(c1, j, key_max, val_max) == job_streams(c0, j, key_max, val_max),
        job_sections(c1, j, key_max) == job_sections(c0, j, key_max),
{
    assert forall|i: int| 0 <= i < j.inputs.len() implies #[trigger] table_stream(
        c1,
        j.inputs[i].1,
        key_max,
        val_max,
    ) == table_stream(c0, j.inputs[i].1, key_max, val_max) by {
        let t = j.inputs[i].1;
        let n = data_blocks_of(t)->0;
        crate::compact::cursor::lemma_same_stream(c0, c1, t.first_block, n, key_max, val_max, 0);
    }
    assert(job_streams(c1, j, key_max, val_max) =~= job_streams(c0, j, key_max, val_max));
    assert forall|i: int| 0 <= i < j.inputs.len() implies #[trigger] rdel_stream(
        c1,
        j.inputs[i].1,
        key_max,
    ) == rdel_stream(c0, j.inputs[i].1, key_max) by {
        let t = j.inputs[i].1;
        crate::compact::rdel_merge::lemma_same_section(
            c0,
            c1,
            section_first(t),
            t.rdel_blocks,
            key_max,
            0,
            0,
            0,
        );
    }
    assert(job_sections(c1, j, key_max) =~= job_sections(c0, j, key_max));
}

/// Devices that agree outside a range apart from the inputs yield the same.
pub(super) proof fn lemma_job_same(
    c0: Map<u64, Seq<u8>>,
    c1: Map<u64, Seq<u8>>,
    j: JobV,
    key_max: usize,
    val_max: usize,
    lo: int,
    hi: int,
)
    requires
        inputs_formed(j.inputs),
        inputs_apart(j.inputs, lo, hi),
        same_outside(c0, c1, lo, hi),
        forall|i: int|
            0 <= i < j.inputs.len() ==> (#[trigger] j.inputs[i]).1.first_block
                + j.inputs[i].1.block_count <= u64::MAX,
    ensures
        job_streams(c1, j, key_max, val_max) == job_streams(c0, j, key_max, val_max),
        job_sections(c1, j, key_max) == job_sections(c0, j, key_max),
{
    lemma_job_same_on(c0, c1, j, key_max, val_max);
}

/// Merges the inputs' range-tombstone sections (a bounded k-way merge over
/// sorted sections, see [`RdelMerger`]) and writes the result from `base`
/// on. Returns the blocks written and the section's bounds.
fn write_output_rdels<D: BlockDevice, const BLOCK: usize, const KEY_MAX: usize>(
    device: &mut D,
    inputs: &[Input<KEY_MAX>],
    bottommost: bool,
    oldest_snapshot: u64,
    base: u64,
    raw: &mut [u8; BLOCK],
) -> (r: Result<(u32, RdelStats<KEY_MAX>), Error<D::Error>>)
    requires
        D::BLOCK == BLOCK,
        rdel_shape(BLOCK as int),
        KEY_MAX <= 0xFFFF,
        12 + 2 * KEY_MAX + RDEL_TRAILER <= BLOCK,
        inputs@.len() <= COMPACTION_KMAX,
        ({
            let out = rdel_output(
                ShadowV { bottommost, oldest_snapshot },
                input_sections(old(device).content(), inputs@),
            );
            let n = rpack(out.rs, BLOCK as int).len();
            &&& n <= u32::MAX
            &&& base + n <= u64::MAX
            &&& places_outside(section_places(inputs@), base as int, base + n)
        }),
    ensures
        ({
            let out = rdel_output(
                ShadowV { bottommost, oldest_snapshot },
                input_sections(old(device).content(), inputs@),
            );
            let gs = rpack(out.rs, BLOCK as int);
            &&& same_outside(
                old(device).content(),
                final(device).content(),
                base as int,
                base + gs.len(),
            )
            &&& match r {
                Ok((n, stats)) => {
                    &&& out.fault is None
                    &&& n == gs.len()
                    &&& section_on(final(device).content(), base as int, gs, BLOCK as int)
                    &&& stats.of(out.rs)
                    &&& crate::compact::rdel_merge::rdels_within(out.rs, KEY_MAX)
                },
                Err(e) => e is Device || (out.fault matches Some(id) && e == (Error::<
                    D::Error,
                >::CorruptBlock { id })),
            }
        }),
{
    let ghost c0 = device.content();
    let ghost block = BLOCK as int;
    let ghost out = rdel_output(
        ShadowV { bottommost, oldest_snapshot },
        input_sections(c0, inputs@),
    );
    let ghost rs = out.rs;
    let ghost gs = rpack(rs, block);
    let ghost hi = base + gs.len();
    let mut w: RdelWriter<BLOCK> = RdelWriter::new(base);
    let mut stats: RdelStats<KEY_MAX> = RdelStats::new();
    let mut merger: RdelMerger<KEY_MAX> = RdelMerger::new(inputs, bottommost, oldest_snapshot);
    let ghost mut n: int = 0;
    proof {
        assert(rs.take(0) =~= Seq::<RdelV>::empty());
        assert(rs.skip(0) =~= rs);
        assert(merger.output(c0) == out);
    }
    loop
        invariant_except_break
            merger.output(device.content()) == (RStreamV { rs: rs.skip(n), fault: out.fault }),
        invariant
            D::BLOCK == BLOCK,
            block == BLOCK,
            rdel_shape(block),
            KEY_MAX <= 0xFFFF,
            12 + 2 * KEY_MAX + RDEL_TRAILER <= BLOCK,
            c0 == old(device).content(),
            out == rdel_output(
                ShadowV { bottommost, oldest_snapshot },
                input_sections(c0, inputs@),
            ),
            rs == out.rs,
            gs == rpack(rs, block),
            gs.len() <= u32::MAX,
            hi == base + gs.len(),
            hi <= u64::MAX,
            merger.wf(block),
            merger.holds_entry(),
            merger.places() == section_places(inputs@),
            places_outside(section_places(inputs@), base as int, hi),
            0 <= n <= rs.len(),
            stats.of(rs.take(n)),
            crate::compact::rdel_merge::rdels_within(rs.take(n), KEY_MAX),
            w.wf(),
            w@.base == base,
            w@.blocks() == rpack(rs.take(n), block),
            w@.cur.len() == 0 ==> n == 0 && w@.groups.len() == 0,
            section_on(device.content(), base as int, w@.groups, block),
            same_outside(c0, device.content(), base as int, hi),
        ensures
            n == rs.len(),
            out.fault is None,
        decreases rs.len() - n,
    {
        let ghost c1 = device.content();
        let more: bool = match merger.next_merged(device, raw) {
            Ok(m) => m,
            Err(e) => {
                return Err(e);
            },
        };
        if !more {
            proof {
                assert(rs.skip(n).len() == 0);
            }
            break;
        }
        let e = merger.current_entry();
        let ghost v = w@;
        proof {
            assert(rs.skip(n)[0] == rs[n]);
            assert(rs.skip(n).skip(1) =~= rs.skip(n + 1));
            assert(rs.take(n + 1).drop_last() =~= rs.take(n));
            assert(rs.take(n + 1).last() == e@);
            assert(rs.take(n).push(e@) =~= rs.take(n + 1));
            lemma_rpack_mono(rs, block, n);
            lemma_rpack_mono(rs, block, n + 1);
            if v.cur.len() > 0 {
                assert(v.blocks().last() == v.cur);
            }
        }
        match w.push(device, e) {
            Ok(()) => {},
            Err(x) => {
                return Err(x);
            },
        }
        proof {
            let v1 = w@;
            assert(v1.blocks() =~= rpacked_with(v.blocks(), e@, block)) by {
                if v.cur.len() == 0 {
                    assert(v.blocks() =~= Seq::<Seq<RdelV>>::empty());
                    assert(v1.cur =~= seq![e@]);
                }
            }
            assert forall|j: int| 0 <= j < v1.groups.len() implies device.content()[(base
                + j) as u64] == crate::sstable::format::rdel_block(
                #[trigger] v1.groups[j],
                block,
            ) by {
                if j < v.groups.len() {
                    assert(v1.groups[j] == v.groups[j]);
                    assert(c1[(base + j) as u64] == crate::sstable::format::rdel_block(
                        v.groups[j],
                        block,
                    ));
                }
            }
            merger.lemma_same_output(c1, device.content(), base as int, hi);
        }
        match stats.observe::<D::Error>(&e, base) {
            Ok(()) => {},
            Err(x) => {
                return Err(x);
            },
        }
        proof {
            n = n + 1;
        }
    }
    assert(rs.take(n) =~= rs);
    let ghost v = w@;
    let ghost c1 = device.content();
    match w.finish(device) {
        Ok(blocks) => {
            proof {
                assert forall|j: int| 0 <= j < gs.len() implies device.content()[(base + j) as u64]
                    == crate::sstable::format::rdel_block(#[trigger] gs[j], block) by {
                    if j < v.groups.len() {
                        assert(gs[j] == v.groups[j]);
                        assert(c1[(base + j) as u64] == crate::sstable::format::rdel_block(
                            v.groups[j],
                            block,
                        ));
                    }
                }
            }
            Ok((blocks, stats))
        },
        Err(e) => Err(e),
    }
}

/// The exhausted merge's data can be sealed.
pub open spec fn data_seals(w: WriterV, block: int) -> bool {
    w.cur.len() > 0 ==> w.may_seal() && w.index_room(block)
}

/// The output's counts fit a table reference.
pub open spec fn counts_fit(w: WriterV, rs: Seq<RdelV>, block: int) -> bool {
    &&& w.groups.len() + rpack(rs, block).len() + 3 <= u32::MAX
    &&& w.all().len() <= u32::MAX
}

/// Seals the output table of an exhausted merge: the rest of its data, then
/// the range-tombstone section, then bloom, index and footer. The meta
/// write flushes, so the blocks are durable before the manifest makes them
/// visible. A merge that kept only range tombstones (no point entries)
/// still seals a table (zero data blocks); one that kept nothing seals none.
pub(super) fn seal_output<
    D: BlockDevice,
    const BLOCK: usize,
    const KEY_MAX: usize,
    const VAL_MAX: usize,
    const BLOOM_BYTES: usize,
>(
    device: &mut D,
    c: &mut Compaction<BLOCK, KEY_MAX, VAL_MAX, BLOOM_BYTES>,
    id: u32,
) -> (r: Result<Option<TableRef<KEY_MAX>>, Error<D::Error>>)
    requires
        D::BLOCK == BLOCK,
        rdel_shape(BLOCK as int),
        12 + 2 * KEY_MAX + RDEL_TRAILER <= BLOCK,
        old(c).job_wf(),
        old(c).writer@.base == old(c).out_base,
        old(c).writer@.groups.len() <= old(c).writer@.limit,
        old(c).writer@.on(old(device).content(), BLOCK as int),
        old(c).writer@.imaged(old(device).content(), true, BLOCK as int),
        old(c).writer@.k >= 1,
        ({
            let hi = old(c).out_base + old(c).writer@.limit + old(c).rdel_blocks + 3;
            let out = job_rdels(old(device).content(), job_of(*old(c)), KEY_MAX);
            &&& hi <= u64::MAX
            &&& inputs_formed(job_of(*old(c)).inputs)
            &&& inputs_apart(job_of(*old(c)).inputs, old(c).out_base as int, hi)
            &&& forall|i: int|
                0 <= i < old(c).n_inputs ==> (#[trigger] old(c).inputs@[i]).tref@.first_block
                    + old(c).inputs@[i].tref@.block_count <= u64::MAX
            &&& old(c).rdel_blocks == rpack(out.rs, BLOCK as int).len()
            &&& out.fault is None
        }),
    ensures
        final(c).wf(),
        same_job(*old(c), *final(c)),
        ({
            let block = BLOCK as int;
            let w0 = old(c).writer@;
            let w = sealed_writer(w0);
            let rs = job_rdels(old(device).content(), job_of(*old(c)), KEY_MAX).rs;
            let run = job_run(w, rs, block);
            &&& same_outside(
                old(device).content(),
                final(device).content(),
                old(c).out_base as int,
                old(c).out_base + old(c).writer@.limit + old(c).rdel_blocks + 3,
            )
            &&& match r {
                Ok(None) => data_seals(w0, block) && w.all().len() == 0 && rs.len() == 0,
                Ok(Some(t)) => {
                    &&& data_seals(w0, block)
                    &&& w.all().len() > 0 || rs.len() > 0
                    &&& counts_fit(w, rs, block)
                    &&& t.wf()
                    &&& t@ == job_tab(w, rs, id, block)
                    &&& run.wf(block, BLOOM_BYTES as int)
                    &&& run.on(final(device).content(), block, BLOOM_BYTES as int)
                    &&& data_imaged(final(device).content(), run.base, run.groups, true, block)
                    &&& rdels_within(rs, KEY_MAX)
                },
                Err(e) => e is Device || (e == Error::<D::Error>::NoSpace && (!data_seals(
                    w0,
                    block,
                ) || ((w.all().len() > 0 || rs.len() > 0) && !counts_fit(w, rs, block)))),
            }
        }),
{
    let ghost block = BLOCK as int;
    let ghost c0 = device.content();
    let ghost w0 = c.writer@;
    let ghost w1 = sealed_writer(w0);
    let ghost j = job_of(*c);
    let ghost out = job_rdels(c0, j, KEY_MAX);
    let ghost rs = out.rs;
    let ghost gs = rpack(rs, block);
    let ghost lo = c.out_base as int;
    let ghost hi = c.out_base + c.writer@.limit + c.rdel_blocks + 3;
    proof {
        c.writer.lemma_wf();
        assert(w1.all() =~= w0.all()) by {
            if w0.cur.len() > 0 {
                assert(w1.groups.drop_last() =~= w0.groups);
            }
        }
    }
    let data_blocks: u64 = match c.writer.seal_data(device, Some(&mut c.compress)) {
        Ok(n) => n,
        Err(e) => {
            return Err(e);
        },
    };
    let ghost c1 = device.content();
    proof {
        crate::sstable::writer::lemma_on_step(w0, c.writer@, c0, c1, block);
        crate::sstable::writer::lemma_imaged_step(w0, c.writer@, c0, c1, block);
        assert(c.writer@ =~= w1);
        c.writer.lemma_wf();
        c.writer.lemma_entry_bound();
    }
    let rdel_base: u64 = c.out_base + data_blocks;
    let inputs: &[Input<KEY_MAX>] = vstd::slice::slice_subrange(
        vstd::array::array_as_slice(&c.inputs),
        0,
        c.n_inputs,
    );
    proof {
        lemma_job_same(c0, c1, j, KEY_MAX, VAL_MAX, lo, hi);
        assert(inputs_of(inputs@, inputs@.len() as int) =~= j.inputs);
        assert forall|i: int| 0 <= i < inputs@.len() implies (
        #[trigger] inputs@[i]).tref@.first_block + inputs@[i].tref@.block_count <= u64::MAX by {
            assert(inputs@[i] == c.inputs@[i]);
        }
        lemma_sections_of(c1, inputs@, j, KEY_MAX);
        lemma_places_outside(inputs@, j.inputs, lo, hi, rdel_base as int, rdel_base + gs.len());
        assert(rdel_output(
            ShadowV { bottommost: c.bottommost, oldest_snapshot: c.oldest_snapshot },
            input_sections(c1, inputs@),
        ) == out);
        assert(w1.groups.len() <= w0.limit);
        assert(same_outside(c0, c1, lo, hi));
    }
    let (rdel_blocks, stats): (u32, RdelStats<KEY_MAX>) = match write_output_rdels::<
        D,
        BLOCK,
        KEY_MAX,
    >(device, inputs, c.bottommost, c.oldest_snapshot, rdel_base, &mut c.raw) {
        Ok(p) => p,
        Err(e) => {
            return Err(e);
        },
    };
    let ghost c2 = device.content();
    proof {
        law_rpack(rs, block);
    }
    if c.writer.entry_count() == 0 && rdel_blocks == 0 {
        return Ok(None);
    }
    let done: FinishedTable<KEY_MAX> = match c.writer.finish_meta(
        device,
        rdel_blocks,
        stats.min_seq,
    ) {
        Ok(f) => f,
        Err(e) => {
            return Err(e);
        },
    };
    let ghost c3 = device.content();
    let total: u64 = rdel_blocks as u64 + done.data_blocks + 3;
    if total > 0xFFFF_FFFF || done.entry_count > 0xFFFF_FFFF {
        return Err(Error::NoSpace);
    }
    let t = TableRef {
        id,
        first_block: c.out_base,
        block_count: total as u32,
        // `KeyBound::min/max` let an empty bound lose, so a missing
        // section never corrupts the bounds.
        first_key: done.first_key.min(stats.first),
        last_key: done.last_key.max(stats.last),
        max_seq: if stats.max_seq > done.max_seq {
            stats.max_seq
        } else {
            done.max_seq
        },
        min_seq: done.min_seq,
        entry_count: done.entry_count as u32,
        rdel_blocks,
    };
    proof {
        let run = job_run(w1, rs, block);
        let min = seq_min(group_low(w1.all()), rdels_low(rs));
        assert(run_of(w1, gs, min) == run);
        assert(run.meta_on(c3, block, BLOOM_BYTES as int));
        assert(run.recs() =~= w1.all()) by {
            assert(w1.cur =~= Seq::<Rec>::empty());
        }
        assert forall|b: int| 0 <= b < run.groups.len() implies c3[(run.base + b) as u64]
            == data_image(#[trigger] run.groups[b], true, block) by {
            assert(c1[(run.base + b) as u64] == c3[(run.base + b) as u64]);
            assert(w1.groups[b] == run.groups[b]);
        }
        assert forall|b: int| 0 <= b < run.groups.len() implies crate::sstable::format::is_data_block(
            c3[(run.base + b) as u64],
            #[trigger] run.groups[b],
            block,
        ) by {
            assert(c1[(run.base + b) as u64] == c3[(run.base + b) as u64]);
            assert(w1.groups[b] == run.groups[b]);
        }
        assert forall|x: int| 0 <= x < gs.len() implies c3[(run.rdel_at() + x) as u64]
            == crate::sstable::format::rdel_block(#[trigger] gs[x], block) by {
            assert(c2[(rdel_base + x) as u64] == crate::sstable::format::rdel_block(gs[x], block));
        }
        lemma_within_packs(rs, block, KEY_MAX);
    }
    Ok(Some(t))
}

/// Tombstones within the key limit pack into sound groups.
proof fn lemma_within_packs(rs: Seq<RdelV>, block: int, key_max: usize)
    requires
        crate::compact::rdel_merge::rdels_within(rs, key_max),
        rdel_shape(block),
        key_max <= 0xFFFF,
        12 + 2 * key_max + RDEL_TRAILER <= block,
    ensures
        forall|j: int|
            0 <= j < rpack(rs, block).len() ==> crate::sstable::format::rgroup_ok(
                #[trigger] rpack(rs, block)[j],
                block,
            ),
{
    assert forall|i: int| 0 <= i < rs.len() implies (#[trigger] rs[i]).start.len() >= 1
        && rs[i].end.len() >= 1 by {
        assert(rdel_within(rs[i], key_max));
    }
    assert forall|i: int| 0 <= i < rs.len() implies rdel_check::<()>(#[trigger] rs[i], block) is Ok by {
        assert(rdel_within(rs[i], key_max));
    }
    law_rpack(rs, block);
}

/// The sections of a scratch's inputs are those of its job.
proof fn lemma_sections_of<const KEY_MAX: usize>(
    c: Map<u64, Seq<u8>>,
    inputs: Seq<Input<KEY_MAX>>,
    j: JobV,
    key_max: usize,
)
    requires
        key_max == KEY_MAX,
        j.inputs == inputs_of(inputs, inputs.len() as int),
    ensures
        input_sections(c, inputs) == job_sections(c, j, key_max),
{
    assert(input_sections(c, inputs) =~= job_sections(c, j, key_max));
}

/// The inputs' sections lie apart from a part of the output.
proof fn lemma_places_outside<const KEY_MAX: usize>(
    inputs: Seq<Input<KEY_MAX>>,
    views: Seq<(int, TabV)>,
    lo: int,
    hi: int,
    a: int,
    b: int,
)
    requires
        views == inputs_of(inputs, inputs.len() as int),
        inputs_formed(views),
        inputs_apart(views, lo, hi),
        forall|i: int|
            0 <= i < inputs.len() ==> (#[trigger] inputs[i]).tref@.first_block
                + inputs[i].tref@.block_count <= u64::MAX,
        lo <= a,
        b <= hi,
    ensures
        places_outside(section_places(inputs), a, b),
{
    let ps = section_places(inputs);
    assert forall|i: int| 0 <= i < ps.len() implies (#[trigger] ps[i]).0 + ps[i].1 <= a || b
        <= ps[i].0 by {
        let t = inputs[i].tref@;
        assert(views[i].1 == t);
        assert(t.first_block + t.block_count <= lo || hi <= t.first_block);
        assert(inputs[i].tref@.first_block + inputs[i].tref@.block_count <= u64::MAX);
    }
}

/// The lowest of the snapshots, `u64::MAX` without one.
pub open spec fn is_oldest(r: u64, snaps: Seq<u64>) -> bool {
    &&& forall|i: int| 0 <= i < snaps.len() ==> r <= #[trigger] snaps[i]
    &&& snaps.len() == 0 ==> r == u64::MAX
    &&& snaps.len() > 0 ==> snaps.contains(r)
}

/// At most `n` tables of a level, from the front.
pub open spec fn heads(ts: Seq<TabV>, n: int) -> Seq<TabV> {
    if ts.len() < n {
        ts
    } else {
        ts.take(n)
    }
}

impl<
    D: BlockDevice,
    const BLOCK: usize,
    const KEY_MAX: usize,
    const VAL_MAX: usize,
    const CAP: usize,
    const ARENA: usize,
    const LEVELS: usize,
    const TABLES: usize,
    const BLOOM_BYTES: usize,
    const CACHE: usize,
> Db<D, BLOCK, KEY_MAX, VAL_MAX, CAP, ARENA, LEVELS, TABLES, BLOOM_BYTES, CACHE> {
    /// The level whose tables the next job merges down.
    pub open spec fn job_source(&self) -> Option<int> {
        deepest_full(self.man().levels, TABLES as int, LEVELS - 1)
    }

    /// The inputs the next job picks from level `src`.
    pub open spec fn job_pick(&self, src: int) -> Result<PickV, Error<D::Error>> {
        let levels = self.man().levels;
        match picked::<D::Error>(
            src,
            heads(levels[src], TABLES as int),
            heads(levels[src + 1], TABLES as int),
        ) {
            Err(e) => Err(e),
            // The target absorbs the output table: it must fit once the
            // overlapping inputs leave.
            Ok(p) => if levels[src + 1].len() - p.n_tgt + 1 > TABLES {
                Err(Error::NoSpace)
            } else {
                Ok(p)
            },
        }
    }

    /// `j` is the job that a selection makes now.
    pub open spec fn selects(&self, j: JobV) -> bool {
        let levels = self.man().levels;
        &&& self.job_source() matches Some(src) && self.job_pick(src) matches Ok(p) && {
            &&& j.inputs == p.inputs
            &&& j.target == src + 1
            &&& j.keep.bottommost == is_bottom(levels, src + 1, p.first, p.last)
            &&& is_outside_floor(
                self.mem(),
                levels,
                p.inputs,
                p.first,
                p.last,
                j.keep.outside_min_seq,
            )
        }
        &&& watermarks(j.keep.snapshots, self.snaps())
        &&& is_oldest(j.keep.oldest_snapshot, self.snaps())
        &&& next_free(self.slot_map(), j.slot)
        &&& j.base == self.slot_map().base_of(j.slot as int)
        &&& j.limit > 0
        &&& j.limit + j.rdel_blocks + 3 == self.slot_map().blocks_per_slot()
        &&& j.k == Self::probes(entries_of(j.inputs) as int)
        &&& job_rdels(self.content(), j, KEY_MAX).fault is None
        &&& j.rdel_blocks == rpack(job_rdels(self.content(), j, KEY_MAX).rs, BLOCK as int).len()
    }

    /// Why a selection fails: no inputs fit, a section or a first block is
    /// damaged, or no output slot can be had.
    pub open spec fn select_fails(&self, e: Error<D::Error>) -> bool {
        &&& self.job_source() matches Some(src) && {
            match self.job_pick(src) {
                Err(x) => e == x,
                Ok(p) => exists|j: JobV|
                    {
                        let out = #[trigger] job_rdels(self.content(), j, KEY_MAX);
                        &&& j.inputs == p.inputs
                        &&& j.keep.bottommost == is_bottom(
                            self.man().levels,
                            src + 1,
                            p.first,
                            p.last,
                        )
                        &&& is_oldest(j.keep.oldest_snapshot, self.snaps())
                        &&& {
                            ||| out.fault matches Some(id) && e == (Error::<
                                D::Error,
                            >::CorruptBlock { id })
                            ||| e == Error::<D::Error>::NoSpace && (out.rs.len() > u32::MAX
                                || rpack(out.rs, BLOCK as int).len() + 3
                                >= self.slot_map().blocks_per_slot())
                            ||| e == Error::<D::Error>::NoSpace && forall|i: u32|
                                !#[trigger] self.slot_map().is_free(i)
                            ||| exists|i: int|
                                0 <= i < p.inputs.len() && stream_fails(
                                    #[trigger] job_streams(
                                        self.content(),
                                        j,
                                        KEY_MAX,
                                        VAL_MAX,
                                    )[i],
                                    0,
                                    e,
                                    KEY_MAX,
                                    VAL_MAX,
                                )
                        }
                    },
            }
        }
    }

    /// The scratch's job is the one in flight.
    pub open spec fn job_current(
        &self,
        c: &Compaction<BLOCK, KEY_MAX, VAL_MAX, BLOOM_BYTES>,
    ) -> bool {
        c.state == State::Merging && self.job().0 && c.job_gen == self.job().1
    }

    /// The job can run: its inputs are live tables, and its output fits a
    /// slot that holds no table.
    pub open spec fn job_fits(&self, j: JobV) -> bool {
        let slots = self.slot_map();
        let content = self.content();
        &&& j.slot < slots.slot_count()
        &&& !slots.used(j.slot)
        &&& j.base == slots.base_of(j.slot as int)
        &&& j.limit + j.rdel_blocks + 3 <= slots.blocks_per_slot()
        &&& j.k >= 1
        &&& 1 <= j.target < LEVELS
        &&& 1 <= j.inputs.len()
        &&& inputs_live(self.man().levels, j.inputs)
        &&& inputs_formed(j.inputs)
        &&& inputs_once(j.inputs)
        &&& inputs_apart(j.inputs, slots.base_of(j.slot as int), slots.base_of(j.slot + 1))
        &&& forall|i: int|
            0 <= i < j.inputs.len() ==> (#[trigger] j.inputs[i]).1.first_block
                + j.inputs[i].1.block_count <= u64::MAX
        &&& job_rdels(content, j, KEY_MAX).fault is None
        &&& j.rdel_blocks == rpack(job_rdels(content, j, KEY_MAX).rs, BLOCK as int).len()
    }

    /// The slots marked for the job in flight are those that its inputs sit
    /// in.
    pub open spec fn job_marks(&self, inputs: Seq<(int, TabV)>) -> bool {
        forall|s: u32|
            s < self.slot_map().slot_count() ==> #[trigger] crate::slots::bit_set(
                self.job_slots(),
                s,
            ) == exists|x: int|
                0 <= x < inputs.len() && super::place::sits(
                    self.slot_map(),
                    (#[trigger] inputs[x]).1,
                    s,
                )
    }

    /// The scratch's job can be sealed: its slot is reserved, and what it
    /// wrote is on the device.
    pub open spec fn job_ready(
        &self,
        c: &Compaction<BLOCK, KEY_MAX, VAL_MAX, BLOOM_BYTES>,
    ) -> bool {
        let j = job_of(*c);
        &&& self.job_fits(j)
        &&& c.job_wf()
        &&& c.out_slot < self.slot_map().slot_count()
        &&& self.slot_map().reserved(j.slot)
        &&& forall|i: u32| #[trigger] self.slot_map().reserved(i) ==> i == j.slot
        &&& forall|x: int, s: u32|
            0 <= x < j.inputs.len() && #[trigger] super::place::sits(
                self.slot_map(),
                j.inputs[x].1,
                s,
            ) ==> crate::slots::bit_set(self.job_slots(), s)
        &&& c.writer@.base == j.base
        &&& c.writer@.groups.len() <= j.limit
        &&& c.writer@.on(self.content(), BLOCK as int)
        &&& c.writer@.imaged(self.content(), true, BLOCK as int)
    }

    /// The scratch drives the job in flight: what it wrote and has yet to
    /// write make up the job's output.
    pub open spec fn job_held(
        &self,
        c: &Compaction<BLOCK, KEY_MAX, VAL_MAX, BLOOM_BYTES>,
    ) -> bool {
        let j = job_of(*c);
        let content = self.content();
        &&& self.job_ready(c)
        &&& c.apart()
        &&& windows_on(*c)
        &&& c.goal::<D::Error>(content) == push_all::<D::Error>(
            job_start(j),
            job_recs(content, j, KEY_MAX, VAL_MAX),
            BLOCK as int,
            KEY_MAX,
        )
        &&& zipped(c.streams(content)).fault == zipped(
            job_streams(content, j, KEY_MAX, VAL_MAX),
        ).fault
    }

    /// A job in flight goes on after whatever leaves its inputs, its slot
    /// and its reservation alone.
    pub proof fn law_job_goes_on(
        a: &Self,
        b: &Self,
        c: &Compaction<BLOCK, KEY_MAX, VAL_MAX, BLOOM_BYTES>,
    )
        requires
            a.slot_map().wf(),
            a.job_held(c),
            b.slot_map().same_layout(&a.slot_map()),
            !b.slot_map().used(job_of(*c).slot),
            forall|i: u32| #[trigger] b.slot_map().reserved(i) == a.slot_map().reserved(i),
            b.job_slots() == a.job_slots(),
            inputs_live(b.man().levels, job_of(*c).inputs),
            forall|i: int|
                0 <= i < job_of(*c).inputs.len() ==> {
                    let t = (#[trigger] job_of(*c).inputs[i]).1;
                    same_blocks(
                        a.content(),
                        b.content(),
                        t.first_block as int,
                        t.first_block + t.block_count,
                    )
                },
            same_blocks(
                a.content(),
                b.content(),
                a.slot_map().base_of(job_of(*c).slot as int),
                a.slot_map().base_of(job_of(*c).slot + 1),
            ),
        ensures
            b.job_held(c),
    {
        let j = job_of(*c);
        let c0 = a.content();
        let c1 = b.content();
        lemma_job_same_on(c0, c1, j, KEY_MAX, VAL_MAX);
        assert forall|i: int| 0 <= i < c.n_inputs implies c.cursors@[i].rest(c0)
            == #[trigger] c.cursors@[i].rest(c1) by {
            assert(j.inputs[i].1 == c.inputs@[i].tref@);
            c.cursors@[i].lemma_same_rest(c0, c1);
        }
        assert(c.streams(c0) =~= c.streams(c1));
        a.slot_map().law_slots_tile(j.slot as int, j.slot + 1);
        assert forall|g: int| 0 <= g < c.writer@.groups.len() implies crate::sstable::format::is_data_block(
            c1[(c.writer@.base + g) as u64],
            #[trigger] c.writer@.groups[g],
            BLOCK as int,
        ) by {
            let id = (c.writer@.base + g) as u64;
            assert(c0[id] == c1[id]);
        }
        assert forall|x: int, s: u32|
            0 <= x < j.inputs.len() && #[trigger] super::place::sits(
                b.slot_map(),
                j.inputs[x].1,
                s,
            ) implies crate::slots::bit_set(b.job_slots(), s) by {
            assert(super::place::sits(a.slot_map(), j.inputs[x].1, s));
        }
    }

    /// The next job's inputs, in the scratch's input slots, and the level
    /// they merge down from.
    fn plan_job(&self, c: &mut Compaction<BLOCK, KEY_MAX, VAL_MAX, BLOOM_BYTES>) -> (r: Result<
        Option<(usize, JobInputs<KEY_MAX>)>,
        Error<D::Error>,
    >)
        requires
            self.wf(),
            old(c).wf(),
        ensures
            final(c).wf(),
            final(c).purge_before == old(c).purge_before,
            final(c).state == old(c).state,
            match self.job_source() {
                None => r == Ok::<Option<(usize, JobInputs<KEY_MAX>)>, Error<D::Error>>(None)
                    && *final(c) == *old(c),
                Some(src) => match self.job_pick(src) {
                    Err(e) => r == Err::<Option<(usize, JobInputs<KEY_MAX>)>, Error<D::Error>>(e),
                    Ok(p) => r matches Ok(Some((s, job))) && s == src && job.of(
                        final(c).inputs@,
                        p,
                    ),
                },
            },
            r matches Ok(Some((s, _))) ==> s < LEVELS - 1,
    {
        let ghost levels = self.man().levels;
        proof {
            self.lemma_wf();
        }
        // The deepest full level is selected first, so a job's target
        // always has room: a full non-bottom target would have been
        // selected itself.
        if LEVELS < 2 {
            return Ok(None);
        }
        let mut src: usize = LEVELS;
        let mut lvl: usize = LEVELS - 1;
        while lvl > 0 && src == LEVELS
            invariant
                self.wf(),
                levels == self.man().levels,
                levels.len() == LEVELS,
                2 <= LEVELS,
                lvl <= LEVELS - 1,
                src == LEVELS ==> deepest_full(levels, TABLES as int, LEVELS - 1) == deepest_full(
                    levels,
                    TABLES as int,
                    lvl as int,
                ),
                src != LEVELS ==> src < LEVELS - 1 && deepest_full(
                    levels,
                    TABLES as int,
                    LEVELS - 1,
                ) == Some(src as int) && levels[src as int].len() >= TABLES,
            decreases lvl,
        {
            lvl = lvl - 1;
            match self.manifest.level(lvl) {
                Some(tables) => {
                    assert(crate::manifest::tab_views(tables@).len() == tables@.len());
                    if tables.len() >= TABLES {
                        src = lvl;
                    }
                },
                None => {
                    assert(false);
                },
            }
        }
        if src == LEVELS {
            return Ok(None);
        }
        let tgt: usize = src + 1;
        let (ss, ts): (&[TableRef<KEY_MAX>], &[TableRef<KEY_MAX>]) = match (
            self.manifest.level(src),
            self.manifest.level(tgt),
        ) {
            (Some(s), Some(t)) => (s, t),
            _ => {
                assert(false);
                return Err(Error::NoSpace);
            },
        };
        let st: usize = if ss.len() < TABLES {
            ss.len()
        } else {
            TABLES
        };
        let tt: usize = if ts.len() < TABLES {
            ts.len()
        } else {
            TABLES
        };
        let s_tables = vstd::slice::slice_subrange(ss, 0, st);
        let t_tables = vstd::slice::slice_subrange(ts, 0, tt);
        proof {
            assert(crate::manifest::tab_views(ss@).len() == ss@.len());
            assert(crate::manifest::tab_views(ts@).len() == ts@.len());
            assert(crate::manifest::tab_views(s_tables@) =~= heads(
                levels[src as int],
                TABLES as int,
            ));
            assert(crate::manifest::tab_views(t_tables@) =~= heads(
                levels[src + 1],
                TABLES as int,
            ));
            assert forall|i: int| 0 <= i < s_tables@.len() implies (
            #[trigger] s_tables@[i]).wf() by {
                assert(ss@[i].wf());
            }
            assert forall|i: int| 0 <= i < t_tables@.len() implies (
            #[trigger] t_tables@[i]).wf() by {
                assert(ts@[i].wf());
            }
        }
        let job: JobInputs<KEY_MAX> = match select_job_inputs::<D::Error, KEY_MAX>(
            &mut c.inputs,
            src,
            s_tables,
            t_tables,
        ) {
            Ok(j) => j,
            Err(e) => {
                return Err(e);
            },
        };
        proof {
            super::select::lemma_picked_bound::<D::Error>(
                src as int,
                heads(levels[src as int], TABLES as int),
                heads(levels[src + 1], TABLES as int),
            );
        }
        // Checked here, before any merge I/O, instead of failing at commit.
        if ts.len() - job.n_tgt_inputs >= TABLES {
            return Err(Error::NoSpace);
        }
        Ok(Some((src, job)))
    }

    /// The inputs lie apart from a free slot.
    proof fn lemma_inputs_apart(&self, inputs: Seq<(int, TabV)>, s: u32)
        requires
            self.wf(),
            self.is_opened(),
            self.seated(),
            inputs_live(self.man().levels, inputs),
            s < self.slot_map().slot_count(),
            !self.slot_map().used(s),
        ensures
            inputs_apart(
                inputs,
                self.slot_map().base_of(s as int),
                self.slot_map().base_of(s + 1),
            ),
            forall|i: int|
                0 <= i < inputs.len() ==> (#[trigger] inputs[i]).1.first_block
                    + inputs[i].1.block_count <= u64::MAX,
    {
        reveal(Db::seated);
        let levels = self.man().levels;
        self.lemma_wf();
        assert forall|i: int| 0 <= i < inputs.len() implies ((#[trigger] inputs[i]).1.first_block
            + inputs[i].1.block_count <= self.slot_map().base_of(s as int)
            || self.slot_map().base_of(s + 1) <= inputs[i].1.first_block)
            && inputs[i].1.first_block + inputs[i].1.block_count <= u64::MAX by {
            let (l, t) = inputs[i];
            assert(levels[l].contains(t));
            let k = choose|k: int| 0 <= k < levels[l].len() && levels[l][k] == t;
            assert(at(levels, l, k));
            super::place::lemma_slot_apart(self.slot_map(), levels, l, k, s);
            super::place::lemma_in_region(self.slot_map(), levels, l, k);
        }
    }

    /// A selected job can run.
    pub proof fn lemma_selects_fits(&self, j: JobV)
        requires
            self.wf(),
            self.is_opened(),
            self.seated(),
            self.selects(j),
        ensures
            self.job_fits(j),
    {
        reveal(Db::seated);
        let levels = self.man().levels;
        let src = self.job_source()->0;
        self.lemma_wf();
        lemma_source(levels, TABLES as int, LEVELS - 1);
        let a = if levels[src].len() < TABLES {
            levels[src].len() as int
        } else {
            TABLES as int
        };
        let b = if levels[src + 1].len() < TABLES {
            levels[src + 1].len() as int
        } else {
            TABLES as int
        };
        assert(heads(levels[src], TABLES as int) =~= levels[src].take(a));
        assert(heads(levels[src + 1], TABLES as int) =~= levels[src + 1].take(b));
        super::select::lemma_picked_live::<D::Error>(levels, src, a, b, self.slot_map());
        self.lemma_inputs_apart(j.inputs, j.slot);
    }

    /// Selects the next compaction job into `scratch`: the deepest full
    /// level's tables (all of L0, or the oldest table of a deeper level)
    /// plus the target level's overlapping tables. Returns `false` when no
    /// level is full and there is no work.
    #[verifier::rlimit(40)]
    pub(super) fn compact_select(
        &mut self,
        c: &mut Compaction<BLOCK, KEY_MAX, VAL_MAX, BLOOM_BYTES>,
    ) -> (r: Result<bool, Error<D::Error>>)
        requires
            old(self).wf(),
            old(self).is_opened(),
            old(self).seated(),
            !old(self).job().0,
            old(c).wf(),
        ensures
            final(self).wf(),
            final(c).wf(),
            final(self).but_job(old(self)),
            final(self).images() == old(self).images(),
            final(self).slot_map().same_layout(&old(self).slot_map()),
            forall|i: u32| #[trigger]
                final(self).slot_map().used(i) == old(self).slot_map().used(i),
            final(c).purge_before == old(c).purge_before,
            hint_moved(old(self).slot_map(), final(self).slot_map()),
            match r {
                Ok(false) => {
                    &&& old(self).job_source() is None
                    &&& *final(self) == *old(self)
                    &&& *final(c) == *old(c)
                },
                Ok(true) => {
                    &&& old(self).selects(job_of(*final(c)))
                    &&& job_of(*final(c)).keep.purge_before == old(c).purge_before
                    &&& final(self).job_current(final(c))
                    &&& final(self).job_held(final(c))
                    &&& final(self).job_marks(job_of(*final(c)).inputs)
                    &&& final(c).writer@.groups.len() == 0
                    &&& final(self).slot_map().next_hint() == (job_of(*final(c)).slot + 1) % (old(
                        self,
                    ).slot_map().slot_count() as int)
                },
                Err(e) => old(self).job_source() is Some && (e is Device || old(
                    self,
                ).select_fails(e)),
            },
    {
        proof {
            reveal(Db::seated);
        }
        let ghost levels = self.man().levels;
        let ghost content = self.content();
        proof {
            self.lemma_wf();
            Self::lemma_shape();
        }
        let (src, job): (usize, JobInputs<KEY_MAX>) = match self.plan_job(c) {
            Ok(Some(p)) => p,
            Ok(None) => {
                return Ok(false);
            },
            Err(e) => {
                return Err(e);
            },
        };
        let tgt: usize = src + 1;
        let ghost p = self.job_pick(src as int)->Ok_0;
        proof {
            let a = if levels[src as int].len() < TABLES {
                levels[src as int].len() as int
            } else {
                TABLES as int
            };
            let b = if levels[src + 1].len() < TABLES {
                levels[src + 1].len() as int
            } else {
                TABLES as int
            };
            lemma_source(levels, TABLES as int, LEVELS - 1);
            assert(heads(levels[src as int], TABLES as int) =~= levels[src as int].take(a));
            assert(heads(levels[src + 1], TABLES as int) =~= levels[src + 1].take(b));
            super::select::lemma_picked_live::<D::Error>(
                levels,
                src as int,
                a,
                b,
                self.slot_map(),
            );
        }
        let bottommost: bool = self.is_bottommost_output(tgt, job.first, job.last);
        let outside_min_seq: u64 = self.outside_min_seq(
            &c.inputs,
            job.n_inputs,
            job.first,
            job.last,
        );
        // The output's range-tombstone section is fully determined by the
        // inputs, so its exact block budget is counted first with a
        // dry-run of the merge. A sorted cross-input merge is not a
        // subsequence of the concatenation, so greedy repacking can use a
        // different block count than the inputs' rdel blocks (more or
        // fewer); only an exact count is reservation-safe. The write pass
        // replays the same deterministic merge over the immutable input
        // sections, so the budget always matches. The select-time oldest
        // snapshot pins both passes: a snapshot taken mid-compaction always
        // has a seq above every version being merged.
        let oldest_snapshot: u64 = self.oldest_snapshot_seq();
        let ghost j0 = JobV {
            inputs: p.inputs,
            target: tgt as int,
            keep: KeepV {
                bottommost,
                snapshots: Seq::empty(),
                oldest_snapshot,
                outside_min_seq,
                purge_before: c.purge_before,
            },
            slot: 0,
            base: 0,
            limit: 0,
            k: 0,
            rdel_blocks: 0,
        };
        let inputs: &[Input<KEY_MAX>] = vstd::slice::slice_subrange(
            vstd::array::array_as_slice(&c.inputs),
            0,
            job.n_inputs,
        );
        proof {
            assert(inputs_of(inputs@, inputs@.len() as int) =~= p.inputs);
            lemma_sections_of(content, inputs@, j0, KEY_MAX);
        }
        let counted = count_rdel_merge(
            self.wal.device(),
            inputs,
            &mut c.raw,
            bottommost,
            oldest_snapshot,
        );
        let ghost out = job_rdels(content, j0, KEY_MAX);
        let rdel_budget: u32 = match counted {
            Ok(n) => n,
            Err(e) => {
                assert(job_rdels(content, j0, KEY_MAX) == out);
                return Err(e);
            },
        };
        // Reserve the output slot. The job spans many `compact_step`
        // calls; the reservation keeps flushes in between from taking the
        // slot. The rdel section gets its exact counted budget and the 3
        // framing blocks theirs; the data section gets the rest of the
        // slot, and the writer's block limit enforces it.
        let slot_blocks: u64 = self.slots.slot_blocks();
        if slot_blocks <= rdel_budget as u64 + 3 {
            assert(job_rdels(content, j0, KEY_MAX) == out);
            return Err(Error::NoSpace);
        }
        let data_budget: u64 = slot_blocks - rdel_budget as u64 - 3;
        let ghost before = *self;
        let out_slot: u32 = match self.slots.reserve() {
            Some(s) => s,
            None => {
                assert(job_rdels(content, j0, KEY_MAX) == out);
                return Err(Error::NoSpace);
            },
        };
        self.job_active = true;
        self.job_gen = self.job_gen.wrapping_add(1);
        self.job_inputs = 0;
        proof {
            assert(before.open_wf());
            assert forall|i: u32| !(self.slots.used(i) && #[trigger] self.slots.reserved(i)) by {
                assert(self.slots.used(i) == before.slots.used(i));
                assert(self.slots.reserved(i) == (before.slots.reserved(i) || i == out_slot));
            }
            Self::lemma_job_kept(&before, self);
            before.slots.law_slots_tile(out_slot as int, out_slot + 1);
        }
        self.job_inputs = self.input_slots(&c.inputs, job.n_inputs);
        proof {
            Self::lemma_job_kept(&before, self);
        }
        assert(next_free(before.slot_map(), out_slot));
        c.job_gen = self.job_gen;
        c.out_slot = out_slot as usize;
        c.out_base = self.slots.slot_base(out_slot);
        c.target_level = tgt;
        c.bottommost = bottommost;
        c.outside_min_seq = outside_min_seq;
        // The version-retention set: snapshots live at select time pin this
        // compaction's keep-set. Watermarks are stored descending so the
        // merge can walk its thresholds (live view, then each snapshot) in
        // order.
        let (sorted, n): ([u64; MAX_SNAPSHOTS], usize) = self.sorted_snapshot_watermarks();
        c.snapshots = sorted;
        c.n_snapshots = n;
        c.oldest_snapshot = oldest_snapshot;
        c.n_inputs = job.n_inputs;
        c.rdel_blocks = rdel_budget;
        // The data section leads the output slot; the range-tombstone
        // section follows it and is written at commit. The writer's block
        // limit is the slot's data budget: a merge that would need more
        // blocks fails with `NoSpace` instead of writing past the slot.
        c.writer = TableWriter::new(
            c.out_base,
            bloom_k(BLOOM_BYTES * 8, job.total_entries),
        ).with_block_limit(data_budget);
        c.track.stop();
        let ghost j = job_of(*c);
        proof {
            assert(self.snaps() == before.snaps());
            lemma_watermarks_wf(j.keep.snapshots, self.snaps(), oldest_snapshot);
            assert(job_sections(content, j, KEY_MAX) =~= job_sections(content, j0, KEY_MAX));
            assert(job_rdels(content, j, KEY_MAX) == out);
            before.lemma_inputs_apart(p.inputs, out_slot);
            assert(before.selects(j));
        }
        // Position one cursor per input on its first entry.
        match self.init_cursors(c) {
            Ok(()) => {},
            Err(e) => {
                proof {
                    assert(job_rdels(content, j, KEY_MAX) == out);
                }
                return Err(e);
            },
        }
        c.state = State::Merging;
        proof {
            assert(self.job_marks(j.inputs)) by {
                assert forall|s: u32|
                    s < self.slot_map().slot_count() implies #[trigger] crate::slots::bit_set(
                    self.job_slots(),
                    s,
                ) == exists|x: int|
                    0 <= x < j.inputs.len() && super::place::sits(
                        self.slot_map(),
                        (#[trigger] j.inputs[x]).1,
                        s,
                    ) by {
                    if exists|i: int|
                        0 <= i < c.n_inputs && super::place::sits(
                            self.slots,
                            (#[trigger] c.inputs@[i]).tref@,
                            s,
                        ) {
                        let i = choose|i: int|
                            0 <= i < c.n_inputs && super::place::sits(
                                self.slots,
                                (#[trigger] c.inputs@[i]).tref@,
                                s,
                            );
                        assert(j.inputs[i].1 == c.inputs@[i].tref@);
                    }
                    if exists|x: int|
                        0 <= x < j.inputs.len() && super::place::sits(
                            self.slot_map(),
                            (#[trigger] j.inputs[x]).1,
                            s,
                        ) {
                        let x = choose|x: int|
                            0 <= x < j.inputs.len() && super::place::sits(
                                self.slot_map(),
                                (#[trigger] j.inputs[x]).1,
                                s,
                            );
                        assert(j.inputs[x].1 == c.inputs@[x].tref@);
                    }
                }
            }
            assert(c.streams(content) =~= job_streams(content, j, KEY_MAX, VAL_MAX)) by {
                assert forall|i: int| 0 <= i < c.n_inputs implies #[trigger] c.streams(content)[i]
                    == job_streams(content, j, KEY_MAX, VAL_MAX)[i] by {
                    assert(c.cursors@[i].rest(content) == table_stream(
                        content,
                        c.inputs@[i].tref@,
                        KEY_MAX,
                        VAL_MAX,
                    ));
                }
            }
            assert(self.job_held(c)) by {
                assert forall|i: int| 0 <= i < c.n_inputs implies blocks_apart(
                    (#[trigger] c.cursors@[i]).first() as int,
                    c.cursors@[i].blocks() as int,
                    c.writer@.base as int,
                    c.writer@.limit as int,
                ) by {
                    let t = c.inputs@[i].tref@;
                    assert(j.inputs[i].1 == t);
                    assert(c.cursors@[i].rest(content) == table_stream(
                        content,
                        t,
                        KEY_MAX,
                        VAL_MAX,
                    ));
                }
                assert(c.writer@.on(content, BLOCK as int));
                assert(c.writer@.imaged(content, true, BLOCK as int));
            }
        }
        Ok(true)
    }

    /// Positions one cursor per input on its first entry.
    fn init_cursors(&self, c: &mut Compaction<BLOCK, KEY_MAX, VAL_MAX, BLOOM_BYTES>) -> (r: Result<
        (),
        Error<D::Error>,
    >)
        requires
            self.wf(),
            old(c).wf(),
        ensures
            *final(c) == (Compaction { cursors: final(c).cursors, raw: final(c).raw, ..*old(c) }),
            match r {
                Ok(()) => forall|i: int|
                    0 <= i < old(c).n_inputs ==> {
                        &&& (#[trigger] final(c).cursors@[i]).wf()
                        &&& final(c).cursors@[i].rest(self.content()) == table_stream(
                            self.content(),
                            old(c).inputs@[i].tref@,
                            KEY_MAX,
                            VAL_MAX,
                        )
                        &&& Some(final(c).cursors@[i].blocks()) == data_blocks_of(
                            old(c).inputs@[i].tref@,
                        )
                        &&& final(c).cursors@[i].first() == old(c).inputs@[i].tref@.first_block
                    },
                Err(e) => e is Device || exists|i: int|
                    0 <= i < old(c).n_inputs && stream_fails(
                        #[trigger] job_streams(
                            self.content(),
                            job_of(*old(c)),
                            KEY_MAX,
                            VAL_MAX,
                        )[i],
                        0,
                        e,
                        KEY_MAX,
                        VAL_MAX,
                    ),
            },
    {
        proof {
            self.lemma_wf();
        }
        let ghost j = job_of(*c);
        let n: usize = c.n_inputs;
        let mut i: usize = 0;
        while i < n
            invariant
                self.wf(),
                D::BLOCK == BLOCK,
                BLOCK >= 512,
                j == job_of(*old(c)),
                n == old(c).n_inputs,
                n <= COMPACTION_KMAX,
                i <= n,
                *c == (Compaction { cursors: c.cursors, raw: c.raw, ..*old(c) }),
                forall|x: int|
                    0 <= x < i ==> {
                        &&& (#[trigger] c.cursors@[x]).wf()
                        &&& c.cursors@[x].rest(self.content()) == table_stream(
                            self.content(),
                            old(c).inputs@[x].tref@,
                            KEY_MAX,
                            VAL_MAX,
                        )
                        &&& Some(c.cursors@[x].blocks()) == data_blocks_of(
                            old(c).inputs@[x].tref@,
                        )
                        &&& c.cursors@[x].first() == old(c).inputs@[x].tref@.first_block
                    },
            decreases n - i,
        {
            let tref: TableRef<KEY_MAX> = c.inputs[i].tref;
            match c.cursors[i].init(self.wal.device(), &mut c.raw, &tref) {
                Ok(()) => {},
                Err(e) => {
                    proof {
                        assert(job_streams(self.content(), j, KEY_MAX, VAL_MAX)[i as int]
                            == table_stream(self.content(), tref@, KEY_MAX, VAL_MAX));
                    }
                    return Err(e);
                },
            }
            i = i + 1;
        }
        Ok(())
    }

    /// Slots of the input tables, one bit per slot.
    fn input_slots(&self, inputs: &[Input<KEY_MAX>; COMPACTION_KMAX], n: usize) -> (r: u64)
        requires
            self.slots.wf(),
            n <= COMPACTION_KMAX,
        ensures
            forall|s: u32|
                s < self.slots.slot_count() ==> #[trigger] crate::slots::bit_set(r, s) == exists|
                    i: int,
                |
                    0 <= i < n && super::place::sits(
                        self.slots,
                        (#[trigger] inputs@[i]).tref@,
                        s,
                    ),
    {
        let mut bits: u64 = 0;
        let mut i: usize = 0;
        proof {
            self.slots.lemma_counts();
            assert forall|s: u32| s < self.slots.slot_count() implies !#[trigger] crate::slots::bit_set(
                0,
                s,
            ) by {
                crate::slots::lemma_or_bits(0, 0, s);
            }
        }
        while i < n
            invariant
                self.slots.wf(),
                self.slots.slot_count() <= 64,
                n <= COMPACTION_KMAX,
                i <= n,
                forall|s: u32|
                    s < self.slots.slot_count() ==> #[trigger] crate::slots::bit_set(bits, s)
                        == exists|x: int|
                        0 <= x < i && super::place::sits(
                            self.slots,
                            (#[trigger] inputs@[x]).tref@,
                            s,
                        ),
            decreases n - i,
        {
            let ghost bits0 = bits;
            let t: &TableRef<KEY_MAX> = &inputs[i].tref;
            match self.slots.slot_of(t.first_block, t.block_count as u64) {
                Some(slot) => {
                    bits = bits | (1u64 << slot);
                    proof {
                        assert forall|s: u32|
                            s < self.slots.slot_count() implies #[trigger] crate::slots::bit_set(
                            bits,
                            s,
                        ) == exists|x: int|
                            0 <= x < i + 1 && super::place::sits(
                                self.slots,
                                (#[trigger] inputs@[x]).tref@,
                                s,
                            ) by {
                            crate::slots::lemma_set_bit(bits0, slot, s);
                            assert(crate::slots::bit_set(bits0, s) == exists|x: int|
                                0 <= x < i && super::place::sits(
                                    self.slots,
                                    (#[trigger] inputs@[x]).tref@,
                                    s,
                                ));
                            if s == slot {
                                assert(super::place::sits(self.slots, inputs@[i as int].tref@, s));
                            } else if super::place::sits(self.slots, inputs@[i as int].tref@, s) {
                                self.slots.law_one_slot(
                                    s,
                                    slot,
                                    t.first_block,
                                    t.block_count as u64,
                                );
                            }
                        }
                    }
                },
                None => {
                    proof {
                        assert forall|s: u32|
                            s < self.slots.slot_count() implies #[trigger] crate::slots::bit_set(
                            bits,
                            s,
                        ) == exists|x: int|
                            0 <= x < i + 1 && super::place::sits(
                                self.slots,
                                (#[trigger] inputs@[x]).tref@,
                                s,
                            ) by {
                            assert(!self.slots.holds(s, t.first_block, t.block_count as u64));
                            assert(!super::place::sits(self.slots, inputs@[i as int].tref@, s));
                        }
                    }
                },
            }
            i = i + 1;
        }
        bits
    }
}

/// The deepest full level is full and above the bottommost.
pub(super) proof fn lemma_source(levels: Seq<Seq<TabV>>, tables: int, n: int)
    ensures
        deepest_full(levels, tables, n) matches Some(l) ==> 0 <= l < n && levels[l].len() >= tables,
    decreases n,
{
    if n > 0 && levels[n - 1].len() < tables {
        lemma_source(levels, tables, n - 1);
    }
}

/// Watermarks are at least the oldest.
proof fn lemma_watermarks_wf(sorted: Seq<u64>, snaps: Seq<u64>, oldest: u64)
    requires
        watermarks(sorted, snaps),
        is_oldest(oldest, snaps),
    ensures
        forall|t: int| 0 <= t < sorted.len() ==> #[trigger] sorted[t] >= oldest,
{
    assert forall|t: int| 0 <= t < sorted.len() implies #[trigger] sorted[t] >= oldest by {
        assert(snaps.contains(sorted[t]));
    }
}

} // verus!

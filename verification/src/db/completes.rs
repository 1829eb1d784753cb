//! When a compaction is owed success: what may stop a step.

use vstd::prelude::*;

use super::compacted::lemma_tab_streams;
use super::compaction::{
    counts_fit, heads, inputs_live, job_data, job_rdels, job_recs, job_sections, job_start, job_streams, JobV,
};
use super::place::at;
use super::progress::{law_deepest_full, lemma_picked_takes, takes};
use super::select::{
    entries_of, join_check, pick_all, pick_overlapping, picked, with_input, PickV,
};
use super::view::{tab_sound, DimsV};
use super::Db;
use crate::bytes::{lex_le, lex_lt};
use crate::compact::cursor::{rec_within, recs_within, stream_fails};
use crate::compact::merge::{Compaction, Progress, State};
use crate::compact::rdel_merge::{
    law_rdel_merge_keeps_cover, section_sorted, ShadowV,
};
use crate::compact::sift::{
    among, held, law_merge_order, law_sift_keeps_order, mergeable, settled, settled_from, sifted,
    sorted_stream, zipped,
};
use crate::device::BlockDevice;
use crate::error::Error;
use crate::manifest_format::TabV;
use crate::memtable::Rec;
use crate::sstable::fitting::law_table_writes;
use crate::sstable::format::index_bytes;
use crate::sstable::rdel::rpack;
use crate::sstable::writer::{pack, push_all, push_next, write_run, WriterV};

verus! {

/// The entries of the inputs of a job are those of each.
pub proof fn law_entries_counted(inputs: Seq<(int, TabV)>, l: int, t: TabV)
    ensures
        entries_of(Seq::empty()) == 0,
        entries_of(inputs.push((l, t))) == entries_of(inputs) + t.entry_count,
{
    assert(inputs.push((l, t)).drop_last() =~= inputs);
}

/// Tables that can all be read can all join, while fewer than eight have.
proof fn lemma_all_join<E>(p: PickV, ts: Seq<TabV>)
    requires
        p.inputs.len() + ts.len() <= 8,
        forall|i: int|
            0 <= i < ts.len() ==> (#[trigger] ts[i]).block_count >= ts[i].rdel_blocks + 3,
    ensures
        pick_all::<E>(p, ts) matches Ok(q) && q.inputs.len() == p.inputs.len() + ts.len(),
    decreases ts.len(),
{
    if ts.len() > 0 {
        let d = ts.drop_last();
        assert forall|i: int| 0 <= i < d.len() implies (#[trigger] d[i]).block_count
            >= d[i].rdel_blocks + 3 by {
            assert(d[i] == ts[i]);
        }
        lemma_all_join::<E>(p, d);
    }
}

proof fn lemma_over_join<E>(p: PickV, tgt: int, ts: Seq<TabV>)
    requires
        forall|i: int|
            0 <= i < ts.len() ==> (#[trigger] ts[i]).block_count >= ts[i].rdel_blocks + 3,
    ensures
        match pick_overlapping::<E>(p, tgt, ts) {
            Ok(q) => {
                &&& q.inputs.len() <= p.inputs.len() + ts.len()
                &&& p.inputs.len() <= 8 ==> q.inputs.len() <= 8
            },
            Err(e) => e is NoSpace && p.inputs.len() + ts.len() > 8,
        },
    decreases ts.len(),
{
    if ts.len() > 0 {
        let d = ts.drop_last();
        assert forall|i: int| 0 <= i < d.len() implies (#[trigger] d[i]).block_count
            >= d[i].rdel_blocks + 3 by {
            assert(d[i] == ts[i]);
        }
        assert(ts.last() == ts[ts.len() - 1]);
        lemma_over_join::<E>(p, tgt, d);
    }
}

/// A job finds its inputs while they are eight at most: all of a full
/// level 0, or the first table of a deeper level, and of the level below
/// those that meet the range.
pub proof fn law_pick_accepts<E>(src: int, ss: Seq<TabV>, ts: Seq<TabV>)
    requires
        1 <= ss.len() < 8,
        forall|i: int|
            0 <= i < ss.len() ==> (#[trigger] ss[i]).block_count >= ss[i].rdel_blocks + 3,
        forall|i: int|
            0 <= i < ts.len() ==> (#[trigger] ts[i]).block_count >= ts[i].rdel_blocks + 3,
    ensures
        match picked::<E>(src, ss, ts) {
            Ok(p) => p.inputs.len() <= 8,
            Err(e) => e is NoSpace && (if src == 0 {
                ss.len() as int
            } else {
                1
            }) + ts.len() > 8,
        },
{
    let p0 = PickV {
        inputs: Seq::empty(),
        n_tgt: 0,
        first: ss[0].first_key,
        last: ss[0].last_key,
    };
    lemma_all_join::<E>(p0, ss);
    assert(join_check::<E>(p0, ss[0]) is Ok);
    if src == 0 {
        lemma_over_join::<E>(pick_all::<E>(p0, ss)->Ok_0, 1, ts);
    } else {
        lemma_over_join::<E>(with_input(p0, src, ss[0]), src + 1, ts);
    }
}

/// A target table joins only where it meets the range of the inputs before
/// it, and a table that does not stays out.
pub proof fn law_pick_joins<E>(p: PickV, tgt: int, ts: Seq<TabV>, t: TabV)
    requires
        pick_overlapping::<E>(p, tgt, ts) is Ok,
        pick_overlapping::<E>(p, tgt, ts.push(t)) is Ok,
    ensures
        ({
            let a = pick_overlapping::<E>(p, tgt, ts)->Ok_0;
            let b = pick_overlapping::<E>(p, tgt, ts.push(t))->Ok_0;
            &&& b.inputs == (if lex_lt(t.last_key, a.first) || lex_lt(a.last, t.first_key) {
                a.inputs
            } else {
                a.inputs.push((tgt, t))
            })
            &&& lex_le(b.first, a.first)
        }),
{
    let a = pick_overlapping::<E>(p, tgt, ts)->Ok_0;
    assert(ts.push(t).drop_last() =~= ts);
    crate::bytes::lemma_lex_irreflexive(a.first);
    if lex_lt(t.first_key, a.first) {
        crate::bytes::lemma_lex_asymmetric(t.first_key, a.first);
    }
}

/// One more entry is pushed last.
proof fn lemma_push_last<E>(v: WriterV, es: Seq<Rec>, e: Rec, block: int, key_max: usize)
    ensures
        push_all::<E>(v, es.push(e), block, key_max) == (match push_all::<E>(
            v,
            es,
            block,
            key_max,
        ) {
            Err(x) => Err::<WriterV, Error<E>>(x),
            Ok(w) => push_next::<E>(w, e, block, key_max),
        }),
    decreases es.len(),
{
    let q = es.push(e);
    if es.len() == 0 {
        assert(q.skip(1) =~= Seq::<Rec>::empty());
        assert(q[0] == e);
        match push_next::<E>(v, e, block, key_max) {
            Ok(w) => {
                assert(push_all::<E>(w, q.skip(1), block, key_max) == Ok::<WriterV, Error<E>>(w));
            },
            Err(_) => {},
        }
    } else {
        assert(q[0] == es[0]);
        assert(q.skip(1) =~= es.skip(1).push(e));
        match push_next::<E>(v, es[0], block, key_max) {
            Ok(w) => {
                lemma_push_last::<E>(w, es.skip(1), e, block, key_max);
            },
            Err(_) => {},
        }
    }
}

/// A merge writes its output as a table is written.
proof fn lemma_push_is_run<E>(j: JobV, es: Seq<Rec>, block: int, key_max: usize)
    ensures
        push_all::<E>(job_start(j), es, block, key_max) == write_run::<E>(
            j.base,
            j.k,
            j.limit,
            es,
            block,
            key_max,
        ),
    decreases es.len(),
{
    if es.len() > 0 {
        let d = es.drop_last();
        lemma_push_is_run::<E>(j, d, block, key_max);
        lemma_push_last::<E>(job_start(j), d, es.last(), block, key_max);
        assert(d.push(es.last()) =~= es);
    }
}

/// The inputs of a job over sound tables read to their end, and so do their
/// range tombstones; what the job keeps is within the limits.
proof fn lemma_job_readable(c: Map<u64, Seq<u8>>, levels: Seq<Seq<TabV>>, j: JobV, d: DimsV)
    requires
        inputs_live(levels, j.inputs),
        forall|l: int, i: int| at(levels, l, i) ==> tab_sound(c, #[trigger] levels[l][i], d),
    ensures
        mergeable(job_streams(c, j, d.key_max, d.val_max)),
        zipped(job_streams(c, j, d.key_max, d.val_max)).fault is None,
        job_rdels(c, j, d.key_max).fault is None,
        recs_within(job_recs(c, j, d.key_max, d.val_max), d.key_max, d.val_max),
{
    let ss = job_streams(c, j, d.key_max, d.val_max);
    let es = zipped(ss).recs;
    let out = sifted(j.keep, None, es);
    let qs = job_sections(c, j, d.key_max);
    assert forall|i: int| 0 <= i < j.inputs.len() implies sorted_stream(#[trigger] ss[i])
        && recs_within(ss[i].recs, d.key_max, d.val_max) && section_sorted(qs[i]) by {
        let (l, t) = j.inputs[i];
        assert(levels[l].contains(t));
        let k = choose|k: int| 0 <= k < levels[l].len() && levels[l][k] == t;
        assert(at(levels, l, k));
        assert(tab_sound(c, levels[l][k], d));
        lemma_tab_streams(c, t, d);
    }
    assert forall|i: int| 0 <= i < qs.len() implies section_sorted(#[trigger] qs[i]) by {
        assert(sorted_stream(ss[i]));
    }
    law_merge_order(ss);
    law_sift_keeps_order(j.keep, None, es);
    law_rdel_merge_keeps_cover(
        ShadowV { bottommost: j.keep.bottommost, oldest_snapshot: j.keep.oldest_snapshot },
        qs,
        Seq::empty(),
        u64::MAX,
    );
    assert forall|g: int| 0 <= g < out.len() implies rec_within(
        #[trigger] out[g],
        d.key_max,
        d.val_max,
    ) by {
        assert(settled_from(j.keep, es, out[g]));
        let h = choose|h: int| 0 <= h < es.len() && out[g] == settled(j.keep, #[trigger] es[h]);
        assert(among(ss, es[h]));
        let (i, y) = choose|i: int, y: int| held(ss, i, y) && #[trigger] ss[i].recs[y] == es[h];
        assert(recs_within(ss[i].recs, d.key_max, d.val_max));
        assert(rec_within(ss[i].recs[y], d.key_max, d.val_max));
    }
}

impl<
    D: BlockDevice,
    const BLOCK: usize,
    const KEY_MAX: usize,
    const VAL_MAX: usize,
    const CAP: usize,
    const ARENA: usize,
    const LEVELS: usize,
    const TABLES: usize,
    const BLOOM_BYTES: usize,
    const CACHE: usize,
> Db<D, BLOCK, KEY_MAX, VAL_MAX, CAP, ARENA, LEVELS, TABLES, BLOOM_BYTES, CACHE> {
    /// The output of a job is written where its blocks fit what the slot
    /// leaves them, and its index fits its block.
    proof fn lemma_data_written(&self, j: JobV)
        requires
            self.wf(),
            self.sound(),
            self.job_fits(j),
            29 + KEY_MAX + VAL_MAX <= BLOCK <= 0x1_0000,
            pack(job_recs(self.content(), j, KEY_MAX, VAL_MAX), BLOCK as int).len() <= j.limit,
            index_bytes(
                pack(job_recs(self.content(), j, KEY_MAX, VAL_MAX), BLOCK as int),
                j.base,
                pack(job_recs(self.content(), j, KEY_MAX, VAL_MAX), BLOCK as int).len() as int,
            ).len() <= BLOCK - 4,
        ensures
            job_data::<D::Error>(self.content(), j, BLOCK as int, KEY_MAX, VAL_MAX) is Ok,
    {
        self.lemma_wf();
        let d = Self::dims();
        let c = self.content();
        let es = job_recs(c, j, KEY_MAX, VAL_MAX);
        let block = BLOCK as int;
        assert forall|l: int, i: int| at(self.man().levels, l, i) implies tab_sound(
            c,
            #[trigger] self.man().levels[l][i],
            d,
        ) by {}
        lemma_job_readable(c, self.man().levels, j, d);
        self.slot_map().law_slots_tile(j.slot as int, j.slot + 1);
        self.slot_map().law_slots_tile(j.slot as int, self.slot_map().slot_count() as int);
        assert forall|i: int| 0 <= i < es.len() implies ({
            let e = #[trigger] es[i];
            let vl: nat = if e.tombstone {
                0
            } else {
                e.val.len()
            };
            let ttl: nat = if !e.tombstone && e.expire_at != 0 {
                8
            } else {
                0
            };
            1 <= e.key.len() <= KEY_MAX && e.key.len() <= 0xFFFF && vl <= 0xFFFF && 13
                + e.key.len() + vl + ttl + 8 <= block
        }) by {
            assert(rec_within(es[i], KEY_MAX, VAL_MAX));
        }
        law_table_writes::<D::Error>(j.base, j.k, j.limit, es, block, KEY_MAX);
        lemma_push_is_run::<D::Error>(j, es, block, KEY_MAX);
    }

    /// Nor does its commit fail, but for a count or counter at its end.
    proof fn lemma_job_commits(&self, j: JobV)
        requires
            self.wf(),
            self.sound(),
            self.job_fits(j),
            job_data::<D::Error>(self.content(), j, BLOCK as int, KEY_MAX, VAL_MAX) is Ok,
            job_recs(self.content(), j, KEY_MAX, VAL_MAX).len() <= u32::MAX,
            self.slot_map().blocks_per_slot() <= u32::MAX,
            self.man().next_table_id < u32::MAX,
            self.man().seq < u64::MAX,
        ensures
            !self.commit_fails(
                j,
                job_data::<D::Error>(self.content(), j, BLOCK as int, KEY_MAX, VAL_MAX)->Ok_0,
            ),
    {
        let c = self.content();
        let d = Self::dims();
        let w = job_data::<D::Error>(c, j, BLOCK as int, KEY_MAX, VAL_MAX)->Ok_0;
        let rs = job_rdels(c, j, KEY_MAX).rs;
        assert(w.groups.len() <= j.limit && w.all() == job_recs(c, j, KEY_MAX, VAL_MAX)) by {
            assert forall|l: int, i: int| at(self.man().levels, l, i) implies tab_sound(
                c,
                #[trigger] self.man().levels[l][i],
                d,
            ) by {}
            super::compacted::lemma_job_parts::<D::Error>(c, self.man().levels, j, w, d);
        }
        assert(counts_fit(w, rs, BLOCK as int));
    }

    /// A job has the whole of its slot for its output: what the range
    /// tombstones and three blocks of frame leave is for data. The slot is
    /// the next free one, and the filter is sized for the entries of all
    /// inputs together.
    pub proof fn law_job_has_slot(m: &Self, j: JobV)
        requires
            m.wf(),
            m.is_opened(),
            m.selects(j),
        ensures
            j.limit + rpack(job_rdels(m.content(), j, KEY_MAX).rs, BLOCK as int).len() + 3
                == m.slot_map().blocks_per_slot(),
            j.slot < m.slot_map().slot_count(),
            !m.slot_map().used(j.slot),
            !m.slot_map().reserved(j.slot),
            j.base == m.slot_map().base_of(j.slot as int),
            j.k == Self::probes(entries_of(j.inputs) as int),
    {
        m.lemma_wf();
    }

    /// The probes of a filter for `n` entries: the most whose bits come to
    /// no more than 0.693 of the filter, between one and thirty.
    pub proof fn law_filter_probes(n: int)
        requires
            Self::shape(),
            0 < n <= u32::MAX,
        ensures
            1 <= Self::probes(n) <= 30,
            Self::probes(n) > 1 ==> Self::probes(n) * n * 1000 <= 8 * BLOOM_BYTES * 693,
            Self::probes(n) < 30 ==> 8 * BLOOM_BYTES * 693 < (Self::probes(n) + 1) * n * 1000,
    {
        crate::sstable::bloom::law_probe_count(8 * BLOOM_BYTES as int, n);
    }

    /// A step of a job in flight goes on or completes unless the device
    /// fails, or the output does not fit its slot, its index does not fit a
    /// block, or a counter is at its end.
    pub proof fn law_step_goes_on(
        a: &Self,
        b: &Self,
        c: &Compaction<BLOCK, KEY_MAX, VAL_MAX, BLOOM_BYTES>,
        j: JobV,
        n: nat,
        r: Result<Progress, Error<D::Error>>,
    )
        requires
            a.wf(),
            a.sound(),
            a.job_fits(j),
            Self::stepped_on(a, b, c, j, n, r),
            29 + KEY_MAX + VAL_MAX <= BLOCK <= 0x1_0000,
            a.slot_map().blocks_per_slot() <= u32::MAX,
        ensures
            r matches Err(e) ==> e is Device || {
                let es = job_recs(a.content(), j, KEY_MAX, VAL_MAX);
                let rs = job_rdels(a.content(), j, KEY_MAX).rs;
                let gs = pack(es, BLOCK as int);
                ||| gs.len() > j.limit
                ||| index_bytes(gs, j.base, gs.len() as int).len() > BLOCK - 4
                ||| es.len() > u32::MAX
                ||| a.man().next_table_id == u32::MAX
                ||| a.man().seq == u64::MAX
            },
            r matches Ok(Progress::Done) ==> b.man().seq == a.man().seq + 1 && !b.job().0,
            r matches Ok(Progress::More) ==> b.man() == a.man() && c.writer@.groups.len() == n + 1,
    {
        a.lemma_wf();
        let es = job_recs(a.content(), j, KEY_MAX, VAL_MAX);
        let gs = pack(es, BLOCK as int);
        if r is Err && gs.len() <= j.limit && index_bytes(gs, j.base, gs.len() as int).len()
            <= BLOCK - 4 {
            a.lemma_data_written(j);
            if es.len() <= u32::MAX && a.man().next_table_id < u32::MAX && a.man().seq < u64::MAX {
                a.lemma_job_commits(j);
            }
        }
    }

    /// A selection that finds no inputs finds too many, or a full level
    /// below with none to merge.
    proof fn lemma_pick_refused(&self, l: int)
        requires
            self.wf(),
            self.sound(),
            0 <= l < LEVELS - 1,
            self.man().levels[l].len() >= TABLES,
        ensures
            match self.job_pick(l) {
                Ok(p) => inputs_live(self.man().levels, p.inputs),
                Err(x) => {
                    let ts = self.man().levels[l + 1];
                    let k: int = if l == 0 {
                        TABLES as int
                    } else {
                        1
                    };
                    &&& x is NoSpace
                    &&& {
                        ||| k + ts.len() > 8
                        ||| ts.len() > TABLES
                        ||| ts.len() == TABLES && forall|i: int, y: int|
                            0 <= i < ts.len() && 0 <= y < k ==> lex_lt(
                                (#[trigger] ts[i]).last_key,
                                (#[trigger] self.man().levels[l][y]).first_key,
                            ) || lex_lt(self.man().levels[l][y].last_key, ts[i].first_key)
                    }
                },
            },
    {
        self.lemma_wf();
        let levels = self.man().levels;
        let d = Self::dims();
        let c = self.content();
        let ss = heads(levels[l], TABLES as int);
        let ts = heads(levels[l + 1], TABLES as int);
        let k: int = if l == 0 {
            TABLES as int
        } else {
            1
        };
        assert forall|n: int, i: int| at(levels, n, i) implies (
        #[trigger] levels[n][i]).block_count >= levels[n][i].rdel_blocks + 3 by {
            let t = levels[n][i];
            assert(tab_sound(c, t, d));
            assert(super::view::is_run_of(super::view::tab_run(c, t, d), c, t, d));
        }
        assert forall|i: int| 0 <= i < ss.len() implies (#[trigger] ss[i]).block_count
            >= ss[i].rdel_blocks + 3 by {
            assert(at(levels, l, i) && ss[i] == levels[l][i]);
        }
        assert forall|i: int| 0 <= i < ts.len() implies (#[trigger] ts[i]).block_count
            >= ts[i].rdel_blocks + 3 by {
            assert(at(levels, l + 1, i) && ts[i] == levels[l + 1][i]);
        }
        law_pick_accepts::<D::Error>(l, ss, ts);
        lemma_picked_takes::<D::Error>(levels, TABLES as int, l);
        match picked::<D::Error>(l, ss, ts) {
            Ok(p) => {
                assert(takes(levels, TABLES as int, l, p));
                assert forall|x: int| 0 <= x < p.inputs.len() implies 0 <= (
                #[trigger] p.inputs[x]).0 < levels.len() && levels[p.inputs[x].0].contains(
                    p.inputs[x].1,
                ) by {
                    if x < k {
                        assert(p.inputs[x] == (l, levels[l][x]));
                    } else {
                        assert(p.inputs[x].0 == l + 1);
                    }
                }
                if self.job_pick(l) is Err && levels[l + 1].len() == TABLES {
                    assert(p.inputs.len() == k);
                    assert forall|i: int, y: int|
                        0 <= i < levels[l + 1].len() && 0 <= y < k implies lex_lt(
                        (#[trigger] levels[l + 1][i]).last_key,
                        (#[trigger] levels[l][y]).first_key,
                    ) || lex_lt(levels[l][y].last_key, levels[l + 1][i].first_key) by {
                        assert(p.inputs[y] == (l, levels[l][y]));
                        if p.inputs.contains((l + 1, levels[l + 1][i])) {
                            let x = p.inputs.index_of((l + 1, levels[l + 1][i]));
                            assert(p.inputs[x] == (l, levels[l][x]));
                        }
                    }
                }
            },
            Err(_) => {},
        }
    }

    /// A selection that has its inputs fails for its range tombstones or
    /// for want of a slot.
    proof fn lemma_select_refused(&self, l: int, e: Error<D::Error>) -> (j: JobV)
        requires
            self.wf(),
            self.sound(),
            0 <= l < LEVELS - 1,
            self.man().levels[l].len() >= TABLES,
            self.job_source() == Some(l),
            self.job_pick(l) is Ok,
            self.select_fails(e),
        ensures
            e is NoSpace,
            ({
                let rs = job_rdels(self.content(), j, KEY_MAX).rs;
                ||| rs.len() > u32::MAX
                ||| rpack(rs, BLOCK as int).len() + 3 >= self.slot_map().blocks_per_slot()
                ||| forall|s: u32| !#[trigger] self.slot_map().is_free(s)
            }),
    {
        self.lemma_wf();
        self.lemma_pick_refused(l);
        let c = self.content();
        let d = Self::dims();
        let levels = self.man().levels;
        let p = self.job_pick(l)->Ok_0;
        let j = choose|j: JobV|
            {
                let out = #[trigger] job_rdels(c, j, KEY_MAX);
                &&& j.inputs == p.inputs
                &&& {
                    ||| out.fault matches Some(id) && e == (Error::<D::Error>::CorruptBlock { id })
                    ||| e == Error::<D::Error>::NoSpace && (out.rs.len() > u32::MAX || rpack(
                        out.rs,
                        BLOCK as int,
                    ).len() + 3 >= self.slot_map().blocks_per_slot())
                    ||| e == Error::<D::Error>::NoSpace && forall|i: u32|
                        !#[trigger] self.slot_map().is_free(i)
                    ||| exists|i: int|
                        0 <= i < p.inputs.len() && stream_fails(
                            #[trigger] job_streams(c, j, KEY_MAX, VAL_MAX)[i],
                            0,
                            e,
                            KEY_MAX,
                            VAL_MAX,
                        )
                }
            };
        assert forall|n: int, i: int| at(levels, n, i) implies tab_sound(
            c,
            #[trigger] levels[n][i],
            d,
        ) by {}
        lemma_job_readable(c, levels, j, d);
        assert forall|i: int| 0 <= i < p.inputs.len() implies (#[trigger] job_streams(
            c,
            j,
            KEY_MAX,
            VAL_MAX,
        )[i]).fault is None by {
            assert(sorted_stream(job_streams(c, j, KEY_MAX, VAL_MAX)[i]));
        }
        j
    }

    /// A handle that gave up its job is as sound as it was.
    proof fn lemma_sound_idle(a: &Self, m: &Self)
        requires
            a.sound(),
            m.idled(a),
        ensures
            m.sound(),
    {
        Self::lemma_tidy_same(a, m);
    }

    /// A step with no job in flight, where some level above the bottommost
    /// is full, selects the job of the deepest and takes its first step. It
    /// fails short of the job's own end only for the device, for more than
    /// eight inputs, for a full level below with no table to merge, for
    /// range tombstones that fill the slot, or with every slot in use.
    pub proof fn law_idle_step_starts(
        a: &Self,
        b: &Self,
        c0: &Compaction<BLOCK, KEY_MAX, VAL_MAX, BLOOM_BYTES>,
        c1: &Compaction<BLOCK, KEY_MAX, VAL_MAX, BLOOM_BYTES>,
        r: Result<Progress, Error<D::Error>>,
        l: int,
    ) -> (m: (Self, JobV))
        requires
            a.wf(),
            a.sound(),
            !(c0.state == State::Merging && a.job().0 && c0.job_gen == a.job().1),
            Self::stepped(a, b, c0, c1, r),
            0 <= l < LEVELS - 1,
            a.man().levels[l].len() >= TABLES,
            forall|n: int| l < n < LEVELS - 1 ==> (#[trigger] a.man().levels[n]).len() < TABLES,
        ensures
            m.0.idled(a),
            ({
                ||| {
                    &&& m.0.selects(m.1)
                    &&& Self::stepped_on(&m.0, b, c1, m.1, 0, r)
                }
                ||| r matches Err(e) && e is Device
                ||| {
                    &&& r matches Err(e) && e is NoSpace
                    &&& b.man() == a.man()
                    &&& {
                        let ts = a.man().levels[l + 1];
                        let k: int = if l == 0 {
                            TABLES as int
                        } else {
                            1
                        };
                        let rs = job_rdels(a.content(), m.1, KEY_MAX).rs;
                        ||| k + ts.len() > 8
                        ||| ts.len() > TABLES
                        ||| ts.len() == TABLES && forall|i: int, y: int|
                            0 <= i < ts.len() && 0 <= y < k ==> lex_lt(
                                (#[trigger] ts[i]).last_key,
                                (#[trigger] a.man().levels[l][y]).first_key,
                            ) || lex_lt(a.man().levels[l][y].last_key, ts[i].first_key)
                        ||| rs.len() > u32::MAX
                        ||| rpack(rs, BLOCK as int).len() + 3 >= a.slot_map().blocks_per_slot()
                        ||| forall|s: u32|
                            s < a.slot_map().slot_count() ==> #[trigger] a.slot_map().used(s)
                    }
                }
            }),
    {
        let m = choose|m: Self| #[trigger]
            m.idled(a) && m.wf() && Self::stepped_anew(&m, b, c1, c0.purge_before, r);
        let levels = a.man().levels;
        a.lemma_wf();
        Self::lemma_sound_idle(a, &m);
        law_deepest_full(levels, TABLES as int, LEVELS - 1);
        let src = m.job_source()->0;
        assert(m.job_source() is Some);
        assert(src == l) by {
            if src < l {
                assert(levels[l].len() >= TABLES);
            } else if src > l {
                assert(levels[src].len() < TABLES);
            }
        }
        m.lemma_pick_refused(l);
        if exists|j: JobV| #[trigger]
            m.selects(j) && j.keep.purge_before == c0.purge_before && Self::stepped_on(
                &m,
                b,
                c1,
                j,
                0,
                r,
            ) && b.slot_map().next_hint() == (j.slot + 1) % (m.slot_map().slot_count() as int) {
            let j = choose|j: JobV| #[trigger]
                m.selects(j) && j.keep.purge_before == c0.purge_before && Self::stepped_on(
                    &m,
                    b,
                    c1,
                    j,
                    0,
                    r,
                ) && b.slot_map().next_hint() == (j.slot + 1) % (
                m.slot_map().slot_count() as int);
            (m, j)
        } else if r->Err_0 is Device || m.job_pick(l) is Err {
            (m, arbitrary())
        } else {
            let j = m.lemma_select_refused(l, r->Err_0);
            if forall|i: u32| !#[trigger] m.slot_map().is_free(i) {
                assert forall|s: u32|
                    s < a.slot_map().slot_count() implies #[trigger] a.slot_map().used(s) by {
                    assert(!m.slot_map().is_free(s));
                }
            }
            (m, j)
        }
    }
}

} // verus!

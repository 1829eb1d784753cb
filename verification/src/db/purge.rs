//! What a compaction writes of its inputs, table by table.

use vstd::prelude::*;

use super::compacted::{
    lemma_job_parts, lemma_job_run, lemma_joined_ids, lemma_tab_streams, lemma_without_is,
};
use super::compaction::{job_data, job_rdels, job_streams, without, JobV};
use super::place::at;
use super::view::{lemma_tab_is, tab_recs, tab_sound};
use super::Db;
use crate::bytes::lex_le;
use crate::compact::retention::{
    law_dead_keys_dropped, law_purge_leaves_none, law_unseen_versions_dropped,
};
use crate::compact::cursor::StreamV;
use crate::compact::sift::{among, held, law_merge_order, mergeable, sifted, zipped};
use crate::device::BlockDevice;
use crate::error::Error;
use crate::manifest::{
    first_key_sorted, index_of_id, law_insert_keeps_sorted, law_remove_keeps_sorted,
    lemma_index_of_id,
};
use crate::manifest_format::TabV;
use crate::memtable::{key_sorted, Rec};
use crate::sstable::writer::WriterV;

verus! {

/// The first of its key in a sorted merge is the newest of its key.
proof fn lemma_leading(es: Seq<Rec>, key: Seq<u8>, h: int) -> (f: int)
    requires
        0 <= h < es.len(),
        es[h].key == key,
    ensures
        0 <= f <= h,
        es[f].key == key,
        forall|x: int| 0 <= x < f ==> (#[trigger] es[x]).key != key,
    decreases h,
{
    if exists|x: int| 0 <= x < h && (#[trigger] es[x]).key == key {
        let x = choose|x: int| 0 <= x < h && (#[trigger] es[x]).key == key;
        lemma_leading(es, key, x)
    } else {
        h
    }
}

/// The newest of its key in the inputs is the first of its key merged.
proof fn lemma_newest_leads(ss: Seq<StreamV>, e: Rec, y: int) -> (f: int)
    requires
        mergeable(ss),
        0 <= y < ss.len(),
        ss[y].recs.contains(e),
        forall|x: int, q: int|
            held(ss, x, q) && (#[trigger] ss[x].recs[q]).key == e.key ==> ss[x].recs[q] == e
                || ss[x].recs[q].seq < e.seq,
    ensures
        0 <= f < zipped(ss).recs.len(),
        zipped(ss).recs[f] == e,
        forall|x: int| 0 <= x < f ==> (#[trigger] zipped(ss).recs[x]).key != e.key,
{
    let es = zipped(ss).recs;
    law_merge_order(ss);
    let h = ss[y].recs.index_of(e);
    assert(held(ss, y, h) && ss[y].recs[h] == e);
    assert(among(ss, e));
    let z = es.index_of(e);
    let f = lemma_leading(es, e.key, z);
    assert(among(ss, es[f]));
    let (x, q) = choose|x: int, q: int| held(ss, x, q) && #[trigger] ss[x].recs[q] == es[f];
    if f < z {
        assert(es[f].seq >= es[z].seq);
    }
    f
}

/// Taking tables out keeps the order of a level.
proof fn lemma_without_sorted(levels: Seq<Seq<TabV>>, inputs: Seq<(int, TabV)>, l: int)
    requires
        0 <= l < levels.len(),
        first_key_sorted(levels[l]),
        forall|x: int| 0 <= x < inputs.len() ==> 0 <= (#[trigger] inputs[x]).0 < levels.len(),
    ensures
        without(levels, inputs).len() == levels.len(),
        first_key_sorted(without(levels, inputs)[l]),
    decreases inputs.len(),
{
    if inputs.len() > 0 {
        let d = inputs.drop_last();
        assert forall|x: int| 0 <= x < d.len() implies 0 <= (#[trigger] d[x]).0 < levels.len() by {
            assert(d[x] == inputs[x]);
        }
        lemma_without_sorted(levels, d, l);
        let ls = without(levels, d);
        let (n, t) = inputs.last();
        assert(inputs[inputs.len() - 1] == inputs.last());
        let p = index_of_id(ls[n], t.id);
        lemma_index_of_id(ls[n], t.id);
        if p < ls[n].len() && n == l {
            law_remove_keeps_sorted(ls[l], p);
        }
    }
}

impl<
    D: BlockDevice,
    const BLOCK: usize,
    const KEY_MAX: usize,
    const VAL_MAX: usize,
    const CAP: usize,
    const ARENA: usize,
    const LEVELS: usize,
    const TABLES: usize,
    const BLOOM_BYTES: usize,
    const CACHE: usize,
> Db<D, BLOCK, KEY_MAX, VAL_MAX, CAP, ARENA, LEVELS, TABLES, BLOOM_BYTES, CACHE> {
    /// The table that a commit adds holds what was merged.
    proof fn lemma_new_table(a: &Self, b: &Self, j: JobV, w: WriterV, i: int)
        requires
            a.wf(),
            a.sound(),
            a.job_fits(j),
            job_data::<D::Error>(a.content(), j, BLOCK as int, KEY_MAX, VAL_MAX) == Ok::<
                WriterV,
                Error<D::Error>,
            >(w),
            Self::committed(a, b, j, w),
            0 <= i < b.man().levels[j.target].len(),
            !a.man().levels[j.target].contains(b.man().levels[j.target][i]),
        ensures
            tab_recs(b.content(), b.man().levels[j.target][i], Self::dims()) == w.all(),
            key_sorted(zipped(job_streams(a.content(), j, KEY_MAX, VAL_MAX)).recs),
            w.all() == sifted(
                j.keep,
                None,
                zipped(job_streams(a.content(), j, KEY_MAX, VAL_MAX)).recs,
            ),
    {
        reveal(Db::tidy);
        let c = a.content();
        let d = Self::dims();
        let levels = a.man().levels;
        let t = b.man().levels[j.target][i];
        let id = a.man().next_table_id;
        let ls = without(levels, j.inputs);
        let out = a.job_result(j, w);
        a.lemma_wf();
        lemma_without_is(levels, j.inputs, id);
        lemma_job_parts::<D::Error>(c, levels, j, w, d);
        law_merge_order(job_streams(c, j, KEY_MAX, VAL_MAX));
        if out is Some {
            lemma_joined_ids(ls, j.target, out->0, id);
            assert(at(b.man().levels, j.target, i));
            if ls[j.target].contains(t) {
                let z = ls[j.target].index_of(t);
                assert(at(ls, j.target, z));
                assert(levels[j.target].contains(ls[j.target][z]));
            }
            assert(t == out->0);
            lemma_job_run::<D::Error>(c, b.content(), levels, j, w, id, d);
            lemma_tab_is(
                super::compaction::job_run(w, job_rdels(c, j, KEY_MAX).rs, BLOCK as int),
                b.content(),
                t,
                d,
            );
        } else {
            assert(at(ls, j.target, i));
            assert(levels[j.target].contains(ls[j.target][i]));
        }
    }

    /// A committed compaction leaves no value in its output that had
    /// expired by the purge tick: every entry of the table that it added is
    /// a deletion, never expires, or expires later.
    pub proof fn law_compaction_purges(
        a: &Self,
        b: &Self,
        j: JobV,
        w: WriterV,
        i: int,
        g: int,
    )
        requires
            a.wf(),
            a.sound(),
            a.job_fits(j),
            job_data::<D::Error>(a.content(), j, BLOCK as int, KEY_MAX, VAL_MAX) == Ok::<
                WriterV,
                Error<D::Error>,
            >(w),
            Self::committed(a, b, j, w),
            0 <= i < b.man().levels[j.target].len(),
            !a.man().levels[j.target].contains(b.man().levels[j.target][i]),
            0 <= g < tab_recs(b.content(), b.man().levels[j.target][i], Self::dims()).len(),
        ensures
            ({
                let e = tab_recs(b.content(), b.man().levels[j.target][i], Self::dims())[g];
                e.tombstone || e.expire_at == 0 || e.expire_at > j.keep.purge_before
            }),
    {
        Self::lemma_new_table(a, b, j, w, i);
        let es = zipped(job_streams(a.content(), j, KEY_MAX, VAL_MAX)).recs;
        law_purge_leaves_none(j.keep, es, g);
    }

    /// A key that is gone leaves the tables: where nothing below the output
    /// holds it, and its newest version in the inputs is a deletion or a
    /// value expired by the purge tick, older than every snapshot and than
    /// everything outside the job, no version of it is written.
    pub proof fn law_compaction_drops(
        a: &Self,
        b: &Self,
        j: JobV,
        w: WriterV,
        i: int,
        g: int,
        e: Rec,
        y: int,
    )
        requires
            a.wf(),
            a.sound(),
            a.job_fits(j),
            job_data::<D::Error>(a.content(), j, BLOCK as int, KEY_MAX, VAL_MAX) == Ok::<
                WriterV,
                Error<D::Error>,
            >(w),
            Self::committed(a, b, j, w),
            0 <= i < b.man().levels[j.target].len(),
            !a.man().levels[j.target].contains(b.man().levels[j.target][i]),
            0 <= g < tab_recs(b.content(), b.man().levels[j.target][i], Self::dims()).len(),
            0 <= y < j.inputs.len(),
            tab_recs(a.content(), j.inputs[y].1, Self::dims()).contains(e),
            forall|x: int, o: Rec|
                0 <= x < j.inputs.len() && #[trigger] tab_recs(
                    a.content(),
                    j.inputs[x].1,
                    Self::dims(),
                ).contains(o) && o.key == e.key ==> o == e || o.seq < e.seq,
            j.keep.bottommost,
            e.tombstone || (e.expire_at != 0 && e.expire_at <= j.keep.purge_before),
            e.seq < j.keep.oldest_snapshot,
            e.seq < j.keep.outside_min_seq,
        ensures
            tab_recs(b.content(), b.man().levels[j.target][i], Self::dims())[g].key != e.key,
    {
        Self::lemma_new_table(a, b, j, w, i);
        let c = a.content();
        let d = Self::dims();
        let levels = a.man().levels;
        let ss = job_streams(c, j, KEY_MAX, VAL_MAX);
        let es = zipped(ss).recs;
        lemma_job_parts::<D::Error>(c, levels, j, w, d);
        assert forall|x: int| 0 <= x < j.inputs.len() implies (#[trigger] ss[x]).recs == tab_recs(
            c,
            j.inputs[x].1,
            d,
        ) by {
            let (l, t) = j.inputs[x];
            assert(levels[l].contains(t));
            let k = levels[l].index_of(t);
            assert(at(levels, l, k));
            assert(tab_sound(c, levels[l][k], d));
            lemma_tab_streams(c, t, d);
        }
        assert forall|x: int, q: int| held(ss, x, q) && (#[trigger] ss[x].recs[q]).key
            == e.key implies ss[x].recs[q] == e || ss[x].recs[q].seq < e.seq by {
            assert(tab_recs(c, j.inputs[x].1, d)[q] == ss[x].recs[q]);
            assert(tab_recs(c, j.inputs[x].1, d).contains(ss[x].recs[q]));
        }
        let f = lemma_newest_leads(ss, e, y);
        law_dead_keys_dropped(j.keep, es, f, g);
    }

    /// A compaction writes no version that no reader can see: each entry of
    /// the table that it added is that of an input, and two versions of one
    /// key are both there only where a live snapshot lies between them.
    pub proof fn law_compaction_thins(
        a: &Self,
        b: &Self,
        j: JobV,
        w: WriterV,
        i: int,
        g: int,
        h: int,
    )
        requires
            a.wf(),
            a.sound(),
            a.job_fits(j),
            job_data::<D::Error>(a.content(), j, BLOCK as int, KEY_MAX, VAL_MAX) == Ok::<
                WriterV,
                Error<D::Error>,
            >(w),
            Self::committed(a, b, j, w),
            0 <= i < b.man().levels[j.target].len(),
            !a.man().levels[j.target].contains(b.man().levels[j.target][i]),
            ({
                let es = tab_recs(b.content(), b.man().levels[j.target][i], Self::dims());
                0 <= g < h < es.len() && es[g].key == es[h].key
            }),
        ensures
            ({
                let es = tab_recs(b.content(), b.man().levels[j.target][i], Self::dims());
                exists|s: u64| #[trigger]
                    j.keep.snapshots.contains(s) && es[h].seq <= s < es[g].seq
            }),
    {
        Self::lemma_new_table(a, b, j, w, i);
        let ss = job_streams(a.content(), j, KEY_MAX, VAL_MAX);
        let es = zipped(ss).recs;
        let out = w.all();
        lemma_job_parts::<D::Error>(a.content(), a.man().levels, j, w, Self::dims());
        law_merge_order(ss);
        let (x, s) = law_unseen_versions_dropped(j.keep, es, g);
        let (y, v) = law_unseen_versions_dropped(j.keep, es, h);
        assert(out[g].seq > out[h].seq);
        if x > y {
            assert(es[y].seq >= es[x].seq);
        }
        assert(x < y);
        assert(es[x].seq > v);
    }

    /// A compaction keeps the tables of a level in the order of their first
    /// keys: the output goes where its first key belongs.
    pub proof fn law_compaction_keeps_order(a: &Self, b: &Self, j: JobV, w: WriterV, l: int)
        requires
            a.wf(),
            a.is_opened(),
            a.job_fits(j),
            Self::committed(a, b, j, w),
            0 <= l < LEVELS,
            forall|i: int, k: int|
                0 <= i <= k < a.man().levels[l].len() ==> lex_le(
                    (#[trigger] a.man().levels[l][i]).first_key,
                    (#[trigger] a.man().levels[l][k]).first_key,
                ),
        ensures
            forall|i: int, k: int|
                0 <= i <= k < b.man().levels[l].len() ==> lex_le(
                    (#[trigger] b.man().levels[l][i]).first_key,
                    (#[trigger] b.man().levels[l][k]).first_key,
                ),
    {
        a.lemma_wf();
        let levels = a.man().levels;
        let out = a.job_result(j, w);
        assert(first_key_sorted(levels[l])) by {
            assert forall|i: int, k: int| 0 <= i <= k < levels[l].len() implies #[trigger] lex_le(
                levels[l][i].first_key,
                #[trigger] levels[l][k].first_key,
            ) by {}
        }
        lemma_without_sorted(levels, j.inputs, l);
        let ls = without(levels, j.inputs);
        if out is Some && l == j.target {
            law_insert_keeps_sorted(ls[l], out->0);
        }
        assert(first_key_sorted(b.man().levels[l]));
        let now = b.man().levels[l];
        assert forall|i: int, k: int| 0 <= i <= k < now.len() implies lex_le(
            (#[trigger] now[i]).first_key,
            (#[trigger] now[k]).first_key,
        ) by {
            assert(lex_le(now[i].first_key, now[k].first_key));
        }
    }

    /// A compaction that keeps nothing adds no table: it takes no id and no
    /// slot, and every table that is live after it was live before.
    pub proof fn law_nothing_kept_adds_none(a: &Self, b: &Self, j: JobV, w: WriterV, l: int, i: int)
        requires
            a.wf(),
            a.is_opened(),
            a.tidy(),
            a.job_fits(j),
            Self::committed(a, b, j, w),
            w.all().len() == 0,
            job_rdels(a.content(), j, KEY_MAX).rs.len() == 0,
            0 <= l < LEVELS,
            0 <= i < b.man().levels[l].len(),
        ensures
            b.man().next_table_id == a.man().next_table_id,
            a.man().levels[l].contains(b.man().levels[l][i]),
            !b.slot_map().used(j.slot),
            forall|s: u32| !#[trigger] b.slot_map().reserved(s),
    {
        reveal(Db::tidy);
        a.lemma_wf();
        lemma_without_is(a.man().levels, j.inputs, a.man().next_table_id);
        assert(at(b.man().levels, l, i));
    }
}

} // verus!

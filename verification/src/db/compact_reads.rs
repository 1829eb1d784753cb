//! Compaction keeps every read that can still be made.

use vstd::prelude::*;

use super::compacted::{
    lemma_job_parts, lemma_job_run, lemma_joined_ids, lemma_same_id, lemma_tab_streams,
    lemma_without_is,
};
use super::compaction::{
    inputs_live, job_data, job_rdels, job_run, job_sections, job_streams, without, JobV,
};
use super::place::at;
use super::select::{in_job, picked, PickV};
use super::step::compacted;
use super::view::{
    acc_over, best_seq, is_run_of, lemma_tab_is, lemma_tab_kept, mem_acc, read_order, rec_inside,
    tab_rdels, tab_recs, tab_run, tab_sound, AccV, DimsV,
};
use super::{ids_ok, Db};
use crate::bytes::lex_le;
use crate::compact::cursor::StreamV;
use crate::compact::rdel_merge::{cover_in, cover_of, law_rdel_merge_keeps_cover, RStreamV, ShadowV};
use crate::compact::sift::{
    among, deletes, drops, first_at, held, keep_wf, law_merge_keeps_reads, law_merge_order,
    law_sift_keeps_order, lemma_first_at, mergeable, reads_alike, settled, settled_from, sifted,
    sorted_stream, zipped,
};
use crate::device::BlockDevice;
use crate::error::Error;
use crate::manifest_format::TabV;
use crate::memtable::{is_hit, visible_version, Rec};
use crate::model::threshold;
use crate::sstable::format::RdelV;
use crate::sstable::writer::WriterV;

verus! {

// ---------------------------------------------------------------------
// What a read takes from its sources, whatever their order.

/// The newest version found is one of those on offer, and none is newer.
pub(super) proof fn lemma_acc_best(
    a: AccV,
    c: Map<u64, Seq<u8>>,
    ts: Seq<TabV>,
    d: DimsV,
    key: Seq<u8>,
    max_seq: u64,
    skip: Option<u32>,
)
    ensures
        ({
            let b = acc_over(a, c, ts, d, key, max_seq, skip).best;
            &&& b == a.best || exists|k: int|
                0 <= k < ts.len() && skip != Some((#[trigger] ts[k]).id) && first_at(
                    tab_recs(c, ts[k], d),
                    key,
                    max_seq,
                ) == b
            &&& best_seq(a.best) <= best_seq(b)
            &&& b != a.best ==> b is Some && best_seq(a.best) < best_seq(b)
            &&& forall|k: int|
                0 <= k < ts.len() && skip != Some((#[trigger] ts[k]).id) ==> (first_at(
                    tab_recs(c, ts[k], d),
                    key,
                    max_seq,
                ) matches Some(x) ==> x.seq <= best_seq(b))
        }),
    decreases ts.len(),
{
    if ts.len() > 0 {
        let xs = ts.drop_last();
        let n = ts.len() - 1;
        lemma_acc_best(a, c, xs, d, key, max_seq, skip);
        let p = acc_over(a, c, xs, d, key, max_seq, skip).best;
        let b = acc_over(a, c, ts, d, key, max_seq, skip).best;
        if b == p && p != a.best {
            let k = choose|k: int|
                0 <= k < xs.len() && skip != Some((#[trigger] xs[k]).id) && first_at(
                    tab_recs(c, xs[k], d),
                    key,
                    max_seq,
                ) == p;
            assert(ts[k] == xs[k]);
        } else if b != p {
            assert(first_at(tab_recs(c, ts[n], d), key, max_seq) == b);
        }
        assert forall|k: int| 0 <= k < ts.len() && skip != Some((#[trigger] ts[k]).id) implies (
        first_at(tab_recs(c, ts[k], d), key, max_seq) matches Some(x) ==> x.seq <= best_seq(b)) by {
            if k < n {
                assert(xs[k] == ts[k]);
            }
        }
    }
}

/// The covering sequence found is one of those on offer, and none is higher.
pub(super) proof fn lemma_acc_cover(
    a: AccV,
    c: Map<u64, Seq<u8>>,
    ts: Seq<TabV>,
    d: DimsV,
    key: Seq<u8>,
    max_seq: u64,
    skip: Option<u32>,
)
    ensures
        ({
            let q = acc_over(a, c, ts, d, key, max_seq, skip).cover;
            &&& q == a.cover || exists|k: int|
                0 <= k < ts.len() && skip != Some((#[trigger] ts[k]).id) && cover_of(
                    tab_rdels(c, ts[k], d),
                    key,
                    max_seq,
                ) == Some(q)
            &&& a.cover <= q
            &&& forall|k: int|
                0 <= k < ts.len() && skip != Some((#[trigger] ts[k]).id) ==> (cover_of(
                    tab_rdels(c, ts[k], d),
                    key,
                    max_seq,
                ) matches Some(x) ==> x <= q)
        }),
    decreases ts.len(),
{
    if ts.len() > 0 {
        let xs = ts.drop_last();
        let n = ts.len() - 1;
        lemma_acc_cover(a, c, xs, d, key, max_seq, skip);
        let p = acc_over(a, c, xs, d, key, max_seq, skip).cover;
        let q = acc_over(a, c, ts, d, key, max_seq, skip).cover;
        if q == p && p != a.cover {
            let k = choose|k: int|
                0 <= k < xs.len() && skip != Some((#[trigger] xs[k]).id) && cover_of(
                    tab_rdels(c, xs[k], d),
                    key,
                    max_seq,
                ) == Some(p);
            assert(ts[k] == xs[k]);
        } else if q != p {
            assert(cover_of(tab_rdels(c, ts[n], d), key, max_seq) == Some(q));
        }
        assert forall|k: int| 0 <= k < ts.len() && skip != Some((#[trigger] ts[k]).id) implies (
        cover_of(tab_rdels(c, ts[k], d), key, max_seq) matches Some(x) ==> x <= q) by {
            if k < n {
                assert(xs[k] == ts[k]);
            }
        }
    }
}

/// Every live table is read.
pub(super) proof fn lemma_order_has(levels: Seq<Seq<TabV>>, l: int, i: int) -> (k: int)
    requires
        at(levels, l, i),
    ensures
        0 <= k < read_order(levels).len(),
        read_order(levels)[k] == levels[l][i],
    decreases levels.len(),
{
    if levels.len() == 1 {
        levels[0].len() - 1 - i
    } else {
        let d = levels.drop_last();
        if l == levels.len() - 1 {
            read_order(d).len() + i
        } else {
            assert(d[l] == levels[l]);
            lemma_order_has(d, l, i)
        }
    }
}

/// The highest covering sequence of the inputs is one of theirs.
proof fn lemma_cover_in(ss: Seq<RStreamV>, key: Seq<u8>, max_seq: u64)
    ensures
        cover_in(ss, key, max_seq) matches Some(q) ==> exists|i: int|
            0 <= i < ss.len() && cover_of((#[trigger] ss[i]).rs, key, max_seq) == Some(q),
        forall|i: int|
            0 <= i < ss.len() ==> (cover_of((#[trigger] ss[i]).rs, key, max_seq) matches Some(x)
                ==> (cover_in(ss, key, max_seq) matches Some(q) && x <= q)),
    decreases ss.len(),
{
    if ss.len() > 0 {
        let d = ss.drop_last();
        let n = ss.len() - 1;
        lemma_cover_in(d, key, max_seq);
        let p = cover_in(d, key, max_seq);
        let f = cover_of(ss[n].rs, key, max_seq);
        let q = cover_in(ss, key, max_seq);
        if q is Some {
            if q == f {
                assert(cover_of(ss[n].rs, key, max_seq) == q);
            } else {
                assert(q == p);
                let i = choose|i: int|
                    0 <= i < d.len() && cover_of((#[trigger] d[i]).rs, key, max_seq) == Some(p->0);
                assert(ss[i] == d[i]);
            }
        }
        assert forall|i: int| 0 <= i < ss.len() implies (cover_of(
            (#[trigger] ss[i]).rs,
            key,
            max_seq,
        ) matches Some(x) ==> (q matches Some(y) && x <= y)) by {
            if i < n {
                assert(d[i] == ss[i]);
            }
        }
    }
}

/// The merged entries offer the newest version that an input offers.
proof fn lemma_zip_newest(ss: Seq<StreamV>, key: Seq<u8>, max_seq: u64)
    requires
        mergeable(ss),
    ensures
        match first_at(zipped(ss).recs, key, max_seq) {
            Some(e) => {
                &&& exists|i: int|
                    0 <= i < ss.len() && first_at((#[trigger] ss[i]).recs, key, max_seq) == Some(e)
                &&& forall|i: int|
                    0 <= i < ss.len() ==> (first_at(
                        (#[trigger] ss[i]).recs,
                        key,
                        max_seq,
                    ) matches Some(x) ==> x.seq <= e.seq)
            },
            None => forall|i: int|
                0 <= i < ss.len() ==> first_at((#[trigger] ss[i]).recs, key, max_seq) is None,
        },
{
    let es = zipped(ss).recs;
    law_merge_order(ss);
    lemma_first_at(es, key, max_seq);
    // What an input offers stands among the merged entries.
    assert forall|i: int| 0 <= i < ss.len() implies (first_at(
        (#[trigger] ss[i]).recs,
        key,
        max_seq,
    ) matches Some(x) ==> (first_at(es, key, max_seq) matches Some(e) && x.seq <= e.seq)) by {
        lemma_first_at(ss[i].recs, key, max_seq);
        if first_at(ss[i].recs, key, max_seq) is Some {
            let x = first_at(ss[i].recs, key, max_seq)->0;
            let g = choose|g: int| #[trigger]
                is_hit(ss[i].recs, key, max_seq, g) && ss[i].recs[g] == x;
            assert(held(ss, i, g) && ss[i].recs[g] == x);
            assert(among(ss, x));
            let h = es.index_of(x);
            assert(es[h] == x);
            assert(visible_version(es, key, max_seq, h));
            let e = first_at(es, key, max_seq)->0;
            let y = choose|y: int| #[trigger] is_hit(es, key, max_seq, y) && es[y] == e;
            if h < y {
                assert(!visible_version(es, key, max_seq, h));
            }
            if y < h {
                assert(es[y].key == es[h].key);
            }
        }
    }
    if first_at(es, key, max_seq) is Some {
        let e = first_at(es, key, max_seq)->0;
        let y = choose|y: int| #[trigger] is_hit(es, key, max_seq, y) && es[y] == e;
        assert(among(ss, es[y]));
        let (i, g) = choose|i: int, g: int| held(ss, i, g) && #[trigger] ss[i].recs[g] == e;
        let rs = ss[i].recs;
        lemma_first_at(rs, key, max_seq);
        assert(visible_version(rs, key, max_seq, g));
        let x = first_at(rs, key, max_seq)->0;
        let h = choose|h: int| #[trigger] is_hit(rs, key, max_seq, h) && rs[h] == x;
        assert(x.seq <= e.seq) by {
            assert(first_at(ss[i].recs, key, max_seq) == Some(x));
        }
        assert(sorted_stream(ss[i]));
        if h < g {
            assert(rs[h].key == rs[g].key);
        }
        if g < h {
            assert(!visible_version(rs, key, max_seq, g));
        }
        assert(first_at(ss[i].recs, key, max_seq) == Some(e));
    }
}

/// A read above every sequence is one without a limit.
pub(super) proof fn lemma_first_unbound(es: Seq<Rec>, key: Seq<u8>, max_seq: u64)
    requires
        forall|i: int| 0 <= i < es.len() ==> (#[trigger] es[i]).seq <= max_seq,
    ensures
        first_at(es, key, max_seq) == first_at(es, key, u64::MAX),
    decreases es.len(),
{
    if es.len() > 0 {
        assert(es[0].seq <= max_seq);
        assert forall|i: int| 0 <= i < es.skip(1).len() implies (#[trigger] es.skip(1)[i]).seq
            <= max_seq by {
            assert(es.skip(1)[i] == es[i + 1]);
        }
        lemma_first_unbound(es.skip(1), key, max_seq);
        assert(visible_version(es, key, max_seq, 0) == visible_version(es, key, u64::MAX, 0));
    }
}

/// A cover above every sequence is one without a limit.
pub(super) proof fn lemma_cover_unbound(rs: Seq<RdelV>, key: Seq<u8>, max_seq: u64)
    requires
        forall|i: int| 0 <= i < rs.len() ==> (#[trigger] rs[i]).seq <= max_seq,
    ensures
        cover_of(rs, key, max_seq) == cover_of(rs, key, u64::MAX),
    decreases rs.len(),
{
    if rs.len() > 0 {
        assert(rs[0].seq <= max_seq);
        assert forall|i: int| 0 <= i < rs.skip(1).len() implies (#[trigger] rs.skip(1)[i]).seq
            <= max_seq by {
            assert(rs.skip(1)[i] == rs[i + 1]);
        }
        lemma_cover_unbound(rs.skip(1), key, max_seq);
    }
}

// ---------------------------------------------------------------------
// What a job's inputs and its output offer a read.

/// A read at `max_seq` can still be made: at a snapshot that the job knows
/// of, or above everything that the job merges.
pub open spec fn watched(j: JobV, max_seq: u64) -> bool {
    j.keep.snapshots.contains(max_seq) || forall|x: int|
        0 <= x < j.inputs.len() ==> (#[trigger] j.inputs[x]).1.max_seq <= max_seq
}

/// An input holds version `e`.
pub open spec fn input_has(
    c: Map<u64, Seq<u8>>,
    inputs: Seq<(int, TabV)>,
    d: DimsV,
    e: Rec,
) -> bool {
    exists|x: int|
        0 <= x < inputs.len() && tab_recs(c, (#[trigger] inputs[x]).1, d).contains(e)
}

/// The threshold that stands for a read at `max_seq`.
spec fn cut_for(j: JobV, max_seq: u64) -> u64 {
    if j.keep.snapshots.contains(max_seq) {
        max_seq
    } else {
        u64::MAX
    }
}

/// The inputs are intact.
spec fn inputs_sound(c: Map<u64, Seq<u8>>, j: JobV, d: DimsV) -> bool {
    forall|x: int| 0 <= x < j.inputs.len() ==> tab_sound(c, (#[trigger] j.inputs[x]).1, d)
}

proof fn lemma_inputs_sound(
    c: Map<u64, Seq<u8>>,
    levels: Seq<Seq<TabV>>,
    j: JobV,
    d: DimsV,
)
    requires
        inputs_live(levels, j.inputs),
        forall|l: int, i: int| at(levels, l, i) ==> tab_sound(c, #[trigger] levels[l][i], d),
    ensures
        inputs_sound(c, j, d),
{
    assert forall|x: int| 0 <= x < j.inputs.len() implies tab_sound(
        c,
        (#[trigger] j.inputs[x]).1,
        d,
    ) by {
        let (l, t) = j.inputs[x];
        assert(levels[l].contains(t));
        let k = choose|k: int| 0 <= k < levels[l].len() && levels[l][k] == t;
        assert(at(levels, l, k));
        assert(tab_sound(c, levels[l][k], d));
    }
}

/// Input `x` offers a read the same at the threshold that stands for it.
proof fn lemma_input_cut(
    c: Map<u64, Seq<u8>>,
    j: JobV,
    d: DimsV,
    key: Seq<u8>,
    max_seq: u64,
    x: int,
)
    requires
        inputs_sound(c, j, d),
        watched(j, max_seq),
        0 <= x < j.inputs.len(),
    ensures
        ({
            let ss = job_streams(c, j, d.key_max, d.val_max);
            let qs = job_sections(c, j, d.key_max);
            let t = j.inputs[x].1;
            let cut = cut_for(j, max_seq);
            &&& ss[x].recs == tab_recs(c, t, d)
            &&& qs[x].rs == tab_rdels(c, t, d)
            &&& first_at(tab_recs(c, t, d), key, max_seq) == first_at(ss[x].recs, key, cut)
            &&& cover_of(tab_rdels(c, t, d), key, max_seq) == cover_of(qs[x].rs, key, cut)
            &&& !j.keep.snapshots.contains(max_seq) ==> forall|g: int|
                0 <= g < ss[x].recs.len() ==> (#[trigger] ss[x].recs[g]).seq <= max_seq
            &&& !j.keep.snapshots.contains(max_seq) ==> forall|g: int|
                0 <= g < qs[x].rs.len() ==> (#[trigger] qs[x].rs[g]).seq <= max_seq
        }),
{
    let t = j.inputs[x].1;
    assert(tab_sound(c, j.inputs[x].1, d));
    lemma_tab_streams(c, t, d);
    let run = tab_run(c, t, d);
    assert(is_run_of(run, c, t, d));
    if !j.keep.snapshots.contains(max_seq) {
        assert(j.inputs[x].1.max_seq <= max_seq);
        let recs = tab_recs(c, t, d);
        let rs = tab_rdels(c, t, d);
        assert forall|g: int| 0 <= g < recs.len() implies (#[trigger] recs[g]).seq <= max_seq by {
            assert(rec_inside(t, run.recs()[g]));
        }
        assert forall|g: int| 0 <= g < rs.len() implies (#[trigger] rs[g]).seq <= max_seq by {
            assert(super::view::rdel_inside(t, run.rdels()[g]));
        }
        lemma_first_unbound(recs, key, max_seq);
        lemma_cover_unbound(rs, key, max_seq);
    }
}

/// The newest version that the inputs offer a read.
spec fn offered(c: Map<u64, Seq<u8>>, j: JobV, d: DimsV, key: Seq<u8>, max_seq: u64) -> Option<
    Rec,
> {
    first_at(zipped(job_streams(c, j, d.key_max, d.val_max)).recs, key, cut_for(j, max_seq))
}

/// The output offers a read what the inputs offered.
proof fn lemma_output_offers(
    c: Map<u64, Seq<u8>>,
    j: JobV,
    out: Seq<Rec>,
    d: DimsV,
    key: Seq<u8>,
    max_seq: u64,
)
    requires
        inputs_sound(c, j, d),
        watched(j, max_seq),
        keep_wf(j.keep),
        mergeable(job_streams(c, j, d.key_max, d.val_max)),
        out == sifted(
            j.keep,
            None,
            zipped(job_streams(c, j, d.key_max, d.val_max)).recs,
        ),
        crate::compact::cursor::recs_within(
            zipped(job_streams(c, j, d.key_max, d.val_max)).recs,
            d.key_max,
            d.val_max,
        ),
    ensures
        reads_alike(j.keep, offered(c, j, d, key, max_seq), first_at(out, key, max_seq)),
{
    let ss = job_streams(c, j, d.key_max, d.val_max);
    let es = zipped(ss).recs;
    let p = j.keep;
    let known = p.snapshots.contains(max_seq);
    let t: int = if known {
        p.snapshots.index_of(max_seq) + 1
    } else {
        0
    };
    assert(threshold(p.snapshots, t) == cut_for(j, max_seq));
    assert forall|i: int| 0 <= i < es.len() implies !(#[trigger] es[i]).range_del by {
        assert(crate::compact::cursor::rec_within(es[i], d.key_max, d.val_max));
    }
    law_merge_order(ss);
    law_merge_keeps_reads(p, es, key, t);
    if !known {
        law_sift_keeps_order(p, None, es);
        assert forall|i: int| 0 <= i < es.len() implies (#[trigger] es[i]).seq <= max_seq by {
            assert(among(ss, es[i]));
            let (x, g) = choose|x: int, g: int| held(ss, x, g) && #[trigger] ss[x].recs[g] == es[i];
            lemma_input_cut(c, j, d, key, max_seq, x);
        }
        assert forall|i: int| 0 <= i < out.len() implies (#[trigger] out[i]).seq <= max_seq by {
            assert(settled_from(p, es, out[i]));
            let h = choose|h: int| 0 <= h < es.len() && out[i] == settled(p, #[trigger] es[h]);
            assert(es[h].seq <= max_seq);
        }
        lemma_first_unbound(out, key, max_seq);
    }
}

/// What the inputs offer is held by one of them, and none offers newer.
proof fn lemma_inputs_offer(
    c: Map<u64, Seq<u8>>,
    j: JobV,
    d: DimsV,
    key: Seq<u8>,
    max_seq: u64,
)
    requires
        inputs_sound(c, j, d),
        watched(j, max_seq),
        mergeable(job_streams(c, j, d.key_max, d.val_max)),
    ensures
        offered(c, j, d, key, max_seq) matches Some(e) ==> {
            &&& input_has(c, j.inputs, d, e)
            &&& e.key == key
            &&& e.seq <= max_seq
            &&& exists|x: int|
                0 <= x < j.inputs.len() && first_at(
                    tab_recs(c, (#[trigger] j.inputs[x]).1, d),
                    key,
                    max_seq,
                ) == Some(e)
        },
        forall|x: int|
            0 <= x < j.inputs.len() ==> (first_at(
                tab_recs(c, (#[trigger] j.inputs[x]).1, d),
                key,
                max_seq,
            ) matches Some(y) ==> (offered(c, j, d, key, max_seq) matches Some(e) && y.seq
                <= e.seq)),
{
    let ss = job_streams(c, j, d.key_max, d.val_max);
    let cut = cut_for(j, max_seq);
    let was = offered(c, j, d, key, max_seq);
    lemma_zip_newest(ss, key, cut);
    if was is Some {
        let e = was->0;
        let x = choose|x: int|
            0 <= x < ss.len() && first_at((#[trigger] ss[x]).recs, key, cut) == Some(e);
        lemma_input_cut(c, j, d, key, max_seq, x);
        let recs = tab_recs(c, j.inputs[x].1, d);
        lemma_first_at(recs, key, max_seq);
        let g = choose|g: int| #[trigger] is_hit(recs, key, max_seq, g) && recs[g] == e;
        assert(recs[g] == e);
    }
    assert forall|x: int| 0 <= x < j.inputs.len() implies (first_at(
        tab_recs(c, (#[trigger] j.inputs[x]).1, d),
        key,
        max_seq,
    ) matches Some(y) ==> (was matches Some(e) && y.seq <= e.seq)) by {
        lemma_input_cut(c, j, d, key, max_seq, x);
        assert(ss[x].recs == tab_recs(c, j.inputs[x].1, d));
    }
}

/// The output covers a key as the inputs did.
proof fn lemma_output_covers(
    c: Map<u64, Seq<u8>>,
    j: JobV,
    d: DimsV,
    key: Seq<u8>,
    max_seq: u64,
)
    requires
        inputs_sound(c, j, d),
        watched(j, max_seq),
        keep_wf(j.keep),
        crate::compact::rdel_merge::sections_sorted(job_sections(c, j, d.key_max)),
    ensures
        ({
            let q = cover_of(job_rdels(c, j, d.key_max).rs, key, max_seq);
            &&& q matches Some(s) ==> exists|x: int|
                0 <= x < j.inputs.len() && cover_of(
                    tab_rdels(c, (#[trigger] j.inputs[x]).1, d),
                    key,
                    max_seq,
                ) == Some(s)
            &&& forall|x: int|
                0 <= x < j.inputs.len() ==> (cover_of(
                    tab_rdels(c, (#[trigger] j.inputs[x]).1, d),
                    key,
                    max_seq,
                ) matches Some(y) ==> (q matches Some(s) && y <= s))
        }),
{
    let qs = job_sections(c, j, d.key_max);
    let rs = job_rdels(c, j, d.key_max).rs;
    let p = j.keep;
    let sh = ShadowV { bottommost: p.bottommost, oldest_snapshot: p.oldest_snapshot };
    let cut = cut_for(j, max_seq);
    if p.snapshots.contains(max_seq) {
        let s = p.snapshots.index_of(max_seq);
        assert(p.snapshots[s] >= p.oldest_snapshot);
    } else {
        assert forall|i: int, g: int| 0 <= i < qs.len() && 0 <= g < qs[i].rs.len() implies (
        #[trigger] qs[i].rs[g]).seq <= max_seq by {
            lemma_input_cut(c, j, d, key, max_seq, i);
        }
        crate::compact::rdel_merge::lemma_output_below(sh, qs, max_seq);
        lemma_cover_unbound(rs, key, max_seq);
    }
    law_rdel_merge_keeps_cover(sh, qs, key, cut);
    lemma_cover_in(qs, key, cut);
    if cover_in(qs, key, cut) is Some {
        let s = cover_in(qs, key, cut)->0;
        let x = choose|x: int|
            0 <= x < qs.len() && cover_of((#[trigger] qs[x]).rs, key, cut) == Some(s);
        lemma_input_cut(c, j, d, key, max_seq, x);
        assert(cover_of(tab_rdels(c, j.inputs[x].1, d), key, max_seq) == Some(s));
    }
    assert forall|x: int| 0 <= x < j.inputs.len() implies (cover_of(
        tab_rdels(c, (#[trigger] j.inputs[x]).1, d),
        key,
        max_seq,
    ) matches Some(y) ==> (cover_of(rs, key, max_seq) matches Some(s) && y <= s)) by {
        lemma_input_cut(c, j, d, key, max_seq, x);
        assert(cover_of(qs[x].rs, key, cut) == cover_of(
            tab_rdels(c, j.inputs[x].1, d),
            key,
            max_seq,
        ));
    }
}

/// A table that is no input is read after the commit too.
proof fn lemma_aside_read(
    levels: Seq<Seq<TabV>>,
    j: JobV,
    out: Option<TabV>,
    l: int,
    i: int,
    next_id: u32,
) -> (m: int)
    requires
        ids_ok(levels, next_id),
        inputs_live(levels, j.inputs),
        super::compaction::inputs_once(j.inputs),
        0 <= j.target < levels.len(),
        at(levels, l, i),
        !in_job(j.inputs, levels[l][i].id),
    ensures
        0 <= m < read_order(compacted(levels, j, out)).len(),
        read_order(compacted(levels, j, out))[m] == levels[l][i],
{
    let l1 = compacted(levels, j, out);
    let z = super::compacted::lemma_aside_at(levels, j, out, l, i, next_id);
    lemma_order_has(l1, l, z)
}

// ---------------------------------------------------------------------
// The law.

impl<
    D: BlockDevice,
    const BLOCK: usize,
    const KEY_MAX: usize,
    const VAL_MAX: usize,
    const CAP: usize,
    const ARENA: usize,
    const LEVELS: usize,
    const TABLES: usize,
    const BLOOM_BYTES: usize,
    const CACHE: usize,
> Db<D, BLOCK, KEY_MAX, VAL_MAX, CAP, ARENA, LEVELS, TABLES, BLOOM_BYTES, CACHE> {
    /// The memtable holds version `e`.
    pub open spec fn mem_has(&self, e: Rec) -> bool {
        self.mem().contains(e) && !e.range_del
    }

    /// Live table `i` of level `l` holds version `e`.
    pub open spec fn table_has(&self, l: int, i: int, e: Rec) -> bool {
        at(self.man().levels, l, i) && tab_recs(
            self.content(),
            self.man().levels[l][i],
            Self::dims(),
        ).contains(e)
    }

    /// The database holds version `e`.
    pub open spec fn has_version(&self, e: Rec) -> bool {
        self.mem_has(e) || exists|l: int, i: int| #[trigger] self.table_has(l, i, e)
    }

    /// No two different versions of a key share a sequence: sequences are
    /// given out once.
    pub open spec fn versions_agree(&self) -> bool {
        forall|e: Rec, f: Rec|
            #![trigger self.has_version(e), self.has_version(f)]
            self.has_version(e) && self.has_version(f) && e.key == f.key && e.seq == f.seq ==> e
                == f
    }

    /// Version `e` is held by the memtable, or by a table that is no input
    /// of the job.
    pub open spec fn held_aside(&self, j: JobV, e: Rec) -> bool {
        self.mem_has(e) || exists|l: int, i: int| #[trigger]
            self.table_has(l, i, e) && !in_job(j.inputs, self.man().levels[l][i].id)
    }

    /// Version `e` is held by an input of the job.
    pub open spec fn held_input(&self, j: JobV, e: Rec) -> bool {
        input_has(self.content(), j.inputs, Self::dims(), e)
    }

    /// Nothing aside is older than a deletion that the job may drop.
    pub open spec fn guards(&self, j: JobV) -> bool {
        forall|e: Rec, f: Rec|
            #![trigger self.held_input(j, e), self.held_aside(j, f)]
            self.held_input(j, e) && self.held_aside(j, f) && e.key == f.key && drops(j.keep, e)
                ==> f.seq > e.seq
    }


    /// A table read before the commit is an input, or is read after it.
    proof fn lemma_read_before(a: &Self, b: &Self, j: JobV, w: WriterV, k: int)
        requires
            a.wf(),
            a.sound(),
            a.job_fits(j),
            Self::committed(a, b, j, w),
            b.sound(),
            0 <= k < read_order(a.man().levels).len(),
        ensures
            ({
                let t = read_order(a.man().levels)[k];
                let ro = read_order(b.man().levels);
                let d = Self::dims();
                ||| exists|x: int| 0 <= x < j.inputs.len() && (#[trigger] j.inputs[x]).1 == t
                ||| {
                    &&& !in_job(j.inputs, t.id)
                    &&& exists|m: int| 0 <= m < ro.len() && #[trigger] ro[m] == t
                    &&& tab_recs(b.content(), t, d) == tab_recs(a.content(), t, d)
                    &&& tab_rdels(b.content(), t, d) == tab_rdels(a.content(), t, d)
                }
            }),
    {
        reveal(Db::tidy);
        let levels = a.man().levels;
        let (l, i) = super::place::lemma_read_order(levels, k);
        let t = levels[l][i];
        let id = a.man().next_table_id;
        a.lemma_wf();
        if in_job(j.inputs, t.id) {
            let x = choose|x: int| 0 <= x < j.inputs.len() && (#[trigger] j.inputs[x]).1.id == t.id;
            lemma_same_id(levels, j.inputs, x, l, i, id);
            assert(j.inputs[x].1 == t);
        } else {
            let m = lemma_aside_read(levels, j, a.job_result(j, w), l, i, id);
            assert(read_order(b.man().levels)[m] == t);
            Self::lemma_aside_kept(a, b, j, l, i);
        }
    }

    /// The commit leaves the blocks of live tables.
    proof fn lemma_aside_kept(a: &Self, b: &Self, j: JobV, l: int, i: int)
        requires
            a.wf(),
            a.sound(),
            a.job_fits(j),
            at(a.man().levels, l, i),
            super::flush::touches_only(
                a.content(),
                b.content(),
                a.slot_map().base_of(j.slot as int),
                a.slot_map().base_of(j.slot + 1),
                a.copy_at(),
                a.copy_at() + Self::stride(),
            ),
        ensures
            ({
                let t = a.man().levels[l][i];
                let d = Self::dims();
                &&& tab_recs(b.content(), t, d) == tab_recs(a.content(), t, d)
                &&& tab_rdels(b.content(), t, d) == tab_rdels(a.content(), t, d)
            }),
    {
        reveal(Db::tidy);
        let d = Self::dims();
        a.lemma_wf();
        a.lemma_copy_at();
        super::place::lemma_tables_kept_both(
            a.slot_map(),
            a.images(),
            a.content(),
            b.content(),
            a.man().levels,
            d,
            j.slot,
            a.copy_at(),
            a.copy_at() + Self::stride(),
        );
        assert(tab_sound(a.content(), a.man().levels[l][i], d));
        lemma_tab_kept(a.content(), b.content(), a.man().levels[l][i], d);
    }

    /// A table read after the commit is the output, or was read before it.
    proof fn lemma_read_after(a: &Self, b: &Self, j: JobV, w: WriterV, k: int)
        requires
            a.wf(),
            a.sound(),
            a.job_fits(j),
            job_data::<D::Error>(a.content(), j, BLOCK as int, KEY_MAX, VAL_MAX) == Ok::<
                WriterV,
                Error<D::Error>,
            >(w),
            Self::committed(a, b, j, w),
            b.sound(),
            0 <= k < read_order(b.man().levels).len(),
        ensures
            ({
                let t = read_order(b.man().levels)[k];
                let ro = read_order(a.man().levels);
                let d = Self::dims();
                ||| {
                    &&& a.job_result(j, w) == Some(t)
                    &&& tab_recs(b.content(), t, d) == w.all()
                    &&& tab_rdels(b.content(), t, d) == job_rdels(a.content(), j, KEY_MAX).rs
                }
                ||| {
                    &&& !in_job(j.inputs, t.id)
                    &&& exists|m: int| 0 <= m < ro.len() && #[trigger] ro[m] == t
                    &&& tab_recs(b.content(), t, d) == tab_recs(a.content(), t, d)
                    &&& tab_rdels(b.content(), t, d) == tab_rdels(a.content(), t, d)
                }
            }),
    {
        reveal(Db::tidy);
        let levels = a.man().levels;
        let l1 = b.man().levels;
        let (l, i) = super::place::lemma_read_order(l1, k);
        let t = l1[l][i];
        let id = a.man().next_table_id;
        let ls = without(levels, j.inputs);
        a.lemma_wf();
        lemma_without_is(levels, j.inputs, id);
        let out = a.job_result(j, w);
        if out is Some {
            lemma_joined_ids(ls, j.target, out->0, id);
        }
        if out == Some(t) {
            Self::lemma_output_is(a, b, j, w);
        } else {
            assert(ls[l].contains(t)) by {
                if out is None {
                    assert(ls[l][i] == t);
                }
            }
            let y = choose|y: int| 0 <= y < ls[l].len() && ls[l][y] == t;
            assert(at(ls, l, y));
            assert(levels[l].contains(ls[l][y]));
            let z = choose|z: int| 0 <= z < levels[l].len() && levels[l][z] == t;
            assert(at(levels, l, z));
            let m = lemma_order_has(levels, l, z);
            assert(read_order(levels)[m] == t);
            Self::lemma_aside_kept(a, b, j, l, z);
        }
    }

    /// What the output table holds.
    pub(super) proof fn lemma_output_is(a: &Self, b: &Self, j: JobV, w: WriterV)
        requires
            a.wf(),
            a.sound(),
            a.job_fits(j),
            job_data::<D::Error>(a.content(), j, BLOCK as int, KEY_MAX, VAL_MAX) == Ok::<
                WriterV,
                Error<D::Error>,
            >(w),
            Self::committed(a, b, j, w),
            a.job_result(j, w) is Some,
        ensures
            ({
                let t = a.job_result(j, w)->0;
                let d = Self::dims();
                &&& tab_recs(b.content(), t, d) == w.all()
                &&& tab_rdels(b.content(), t, d) == job_rdels(a.content(), j, KEY_MAX).rs
                &&& exists|m: int|
                    0 <= m < read_order(b.man().levels).len() && #[trigger] read_order(
                        b.man().levels,
                    )[m] == t
            }),
    {
        let d = Self::dims();
        let levels = a.man().levels;
        let id = a.man().next_table_id;
        let rs = job_rdels(a.content(), j, KEY_MAX).rs;
        let t = a.job_result(j, w)->0;
        a.lemma_wf();
        Self::lemma_shape();
        lemma_job_run::<D::Error>(a.content(), b.content(), levels, j, w, id, d);
        lemma_tab_is(job_run(w, rs, d.block), b.content(), t, d);
        let ls = without(levels, j.inputs);
        super::step::lemma_without_total(levels, j.inputs);
        crate::manifest::lemma_lead_below(ls[j.target], t.first_key);
        let p = crate::manifest::lead_below(ls[j.target], t.first_key);
        let l1 = b.man().levels;
        assert(at(l1, j.target, p) && l1[j.target][p] == t);
        let m = lemma_order_has(l1, j.target, p);
        assert(read_order(l1)[m] == t);
    }

    /// What a read finds in the database.
    spec fn found(&self, key: Seq<u8>, max_seq: u64) -> AccV {
        acc_over(
            mem_acc(self.mem(), key, max_seq),
            self.content(),
            read_order(self.man().levels),
            Self::dims(),
            key,
            max_seq,
            None,
        )
    }

    /// The commit loses no covering sequence.
    #[verifier::spinoff_prover]
    #[verifier::rlimit(60)]
    proof fn lemma_cover_kept(
        a: &Self,
        b: &Self,
        j: JobV,
        w: WriterV,
        key: Seq<u8>,
        max_seq: u64,
    )
        requires
            a.wf(),
            a.sound(),
            a.job_fits(j),
            keep_wf(j.keep),
            watched(j, max_seq),
            job_data::<D::Error>(a.content(), j, BLOCK as int, KEY_MAX, VAL_MAX) == Ok::<
                WriterV,
                Error<D::Error>,
            >(w),
            Self::committed(a, b, j, w),
            b.sound(),
        ensures
            a.found(key, max_seq).cover <= b.found(key, max_seq).cover,
    {
        let d = Self::dims();
        let c = a.content();
        let c1 = b.content();
        let levels = a.man().levels;
        let ro = read_order(levels);
        let r1 = read_order(b.man().levels);
        let a0 = mem_acc(a.mem(), key, max_seq);
        let rs = job_rdels(c, j, KEY_MAX).rs;
        lemma_inputs_sound(c, levels, j, d);
        lemma_job_parts::<D::Error>(c, levels, j, w, d);
        lemma_output_covers(c, j, d, key, max_seq);
        lemma_acc_cover(a0, c, ro, d, key, max_seq, None);
        lemma_acc_cover(a0, c1, r1, d, key, max_seq, None);
        let q0 = a.found(key, max_seq).cover;
        let q1 = b.found(key, max_seq).cover;
        if q0 != a0.cover {
            let k = choose|k: int|
                0 <= k < ro.len() && cover_of(tab_rdels(c, #[trigger] ro[k], d), key, max_seq)
                    == Some(q0);
            let t = ro[k];
            Self::lemma_read_before(a, b, j, w, k);
            if exists|x: int| 0 <= x < j.inputs.len() && (#[trigger] j.inputs[x]).1 == t {
                let x = choose|x: int| 0 <= x < j.inputs.len() && (#[trigger] j.inputs[x]).1 == t;
                assert(cover_of(tab_rdels(c, j.inputs[x].1, d), key, max_seq) == Some(q0));
                assert(cover_of(rs, key, max_seq) is Some);
                if rs.len() == 0 {
                    assert(false);
                }
                Self::lemma_output_is(a, b, j, w);
                let u = a.job_result(j, w)->0;
                let m = choose|m: int| 0 <= m < r1.len() && #[trigger] r1[m] == u;
                assert(cover_of(tab_rdels(c1, r1[m], d), key, max_seq) == cover_of(
                    rs,
                    key,
                    max_seq,
                ));
            } else {
                let m = choose|m: int| 0 <= m < r1.len() && #[trigger] r1[m] == t;
                assert(cover_of(tab_rdels(c1, r1[m], d), key, max_seq) == Some(q0));
            }
        }
    }

    /// The commit adds no covering sequence.
    #[verifier::spinoff_prover]
    #[verifier::rlimit(60)]
    proof fn lemma_cover_old(
        a: &Self,
        b: &Self,
        j: JobV,
        w: WriterV,
        key: Seq<u8>,
        max_seq: u64,
    )
        requires
            a.wf(),
            a.sound(),
            a.job_fits(j),
            keep_wf(j.keep),
            watched(j, max_seq),
            job_data::<D::Error>(a.content(), j, BLOCK as int, KEY_MAX, VAL_MAX) == Ok::<
                WriterV,
                Error<D::Error>,
            >(w),
            Self::committed(a, b, j, w),
            b.sound(),
        ensures
            b.found(key, max_seq).cover <= a.found(key, max_seq).cover,
    {
        let d = Self::dims();
        let c = a.content();
        let c1 = b.content();
        let levels = a.man().levels;
        let ro = read_order(levels);
        let r1 = read_order(b.man().levels);
        let a0 = mem_acc(a.mem(), key, max_seq);
        let rs = job_rdels(c, j, KEY_MAX).rs;
        lemma_inputs_sound(c, levels, j, d);
        lemma_job_parts::<D::Error>(c, levels, j, w, d);
        lemma_output_covers(c, j, d, key, max_seq);
        lemma_acc_cover(a0, c, ro, d, key, max_seq, None);
        lemma_acc_cover(a0, c1, r1, d, key, max_seq, None);
        let q0 = a.found(key, max_seq).cover;
        let q1 = b.found(key, max_seq).cover;
        if q1 != a0.cover {
            let k = choose|k: int|
                0 <= k < r1.len() && cover_of(tab_rdels(c1, #[trigger] r1[k], d), key, max_seq)
                    == Some(q1);
            let t = r1[k];
            Self::lemma_read_after(a, b, j, w, k);
            if a.job_result(j, w) == Some(t) && tab_rdels(c1, t, d) == rs {
                let x = choose|x: int|
                    0 <= x < j.inputs.len() && cover_of(
                        tab_rdels(c, (#[trigger] j.inputs[x]).1, d),
                        key,
                        max_seq,
                    ) == Some(q1);
                let (l, u) = j.inputs[x];
                assert(levels[l].contains(u));
                let y = choose|y: int| 0 <= y < levels[l].len() && levels[l][y] == u;
                let m = lemma_order_has(levels, l, y);
                assert(cover_of(tab_rdels(c, ro[m], d), key, max_seq) == Some(q1));
            } else {
                let m = choose|m: int| 0 <= m < ro.len() && #[trigger] ro[m] == t;
                assert(cover_of(tab_rdels(c, ro[m], d), key, max_seq) == Some(q1));
            }
        }
    }

    /// The commit keeps the covering sequence that a read finds.
    proof fn lemma_cover_same(
        a: &Self,
        b: &Self,
        j: JobV,
        w: WriterV,
        key: Seq<u8>,
        max_seq: u64,
    )
        requires
            a.wf(),
            a.sound(),
            a.job_fits(j),
            keep_wf(j.keep),
            watched(j, max_seq),
            job_data::<D::Error>(a.content(), j, BLOCK as int, KEY_MAX, VAL_MAX) == Ok::<
                WriterV,
                Error<D::Error>,
            >(w),
            Self::committed(a, b, j, w),
            b.sound(),
        ensures
            b.found(key, max_seq).cover == a.found(key, max_seq).cover,
    {
        Self::lemma_cover_kept(a, b, j, w, key, max_seq);
        Self::lemma_cover_old(a, b, j, w, key, max_seq);
    }

    /// A version that the memtable or a live table offers is held.
    proof fn lemma_offer_held(a: &Self, key: Seq<u8>, max_seq: u64)
        ensures
            mem_acc(a.mem(), key, max_seq).best matches Some(e) ==> a.mem_has(e) && e.key == key
                && e.seq <= max_seq,
            forall|k: int|
                0 <= k < read_order(a.man().levels).len() ==> (first_at(
                    tab_recs(a.content(), #[trigger] read_order(a.man().levels)[k], Self::dims()),
                    key,
                    max_seq,
                ) matches Some(e) ==> a.has_version(e) && e.key == key && e.seq <= max_seq && (
                forall|j: JobV|
                    !in_job(j.inputs, read_order(a.man().levels)[k].id) ==> #[trigger]
                    a.held_aside(j, e))),
    {
        let mem = a.mem();
        let ro = read_order(a.man().levels);
        let d = Self::dims();
        lemma_first_at(mem, key, max_seq);
        if first_at(mem, key, max_seq) is Some {
            let e = first_at(mem, key, max_seq)->0;
            let i = choose|i: int| #[trigger] is_hit(mem, key, max_seq, i) && mem[i] == e;
            assert(mem[i] == e);
        }
        assert forall|k: int| 0 <= k < ro.len() implies (first_at(
            tab_recs(a.content(), #[trigger] ro[k], d),
            key,
            max_seq,
        ) matches Some(e) ==> a.has_version(e) && e.key == key && e.seq <= max_seq && (forall|
            j: JobV,
        |
            !in_job(j.inputs, ro[k].id) ==> #[trigger] a.held_aside(j, e))) by {
            let recs = tab_recs(a.content(), ro[k], d);
            lemma_first_at(recs, key, max_seq);
            if first_at(recs, key, max_seq) is Some {
                let e = first_at(recs, key, max_seq)->0;
                let i = choose|i: int| #[trigger] is_hit(recs, key, max_seq, i) && recs[i] == e;
                assert(recs[i] == e);
                let (l, y) = super::place::lemma_read_order(a.man().levels, k);
                assert(a.table_has(l, y, e));
            }
        }
    }

    /// What the inputs offer is held.
    proof fn lemma_input_held(a: &Self, j: JobV, e: Rec)
        requires
            inputs_live(a.man().levels, j.inputs),
            a.held_input(j, e),
        ensures
            a.has_version(e),
    {
        let x = choose|x: int|
            0 <= x < j.inputs.len() && tab_recs(
                a.content(),
                (#[trigger] j.inputs[x]).1,
                Self::dims(),
            ).contains(e);
        let (l, t) = j.inputs[x];
        assert(a.man().levels[l].contains(t));
        let y = choose|y: int| 0 <= y < a.man().levels[l].len() && a.man().levels[l][y] == t;
        assert(a.table_has(l, y, e));
    }

    /// What the inputs offer is found before, what the output offers after.
    proof fn lemma_offers_found(
        a: &Self,
        b: &Self,
        j: JobV,
        w: WriterV,
        key: Seq<u8>,
        max_seq: u64,
    )
        requires
            a.wf(),
            a.sound(),
            a.job_fits(j),
            keep_wf(j.keep),
            watched(j, max_seq),
            job_data::<D::Error>(a.content(), j, BLOCK as int, KEY_MAX, VAL_MAX) == Ok::<
                WriterV,
                Error<D::Error>,
            >(w),
            Self::committed(a, b, j, w),
            b.sound(),
        ensures
            ({
                let was = offered(a.content(), j, Self::dims(), key, max_seq);
                let fo = first_at(w.all(), key, max_seq);
                &&& reads_alike(j.keep, was, fo)
                &&& was matches Some(e) ==> {
                    &&& a.has_version(e)
                    &&& a.held_input(j, e)
                    &&& e.key == key
                    &&& e.seq <= best_seq(a.found(key, max_seq).best)
                }
                &&& fo matches Some(f) ==> f.seq <= best_seq(b.found(key, max_seq).best)
            }),
    {
        let d = Self::dims();
        let c = a.content();
        let c1 = b.content();
        let levels = a.man().levels;
        let ro = read_order(levels);
        let r1 = read_order(b.man().levels);
        let a0 = mem_acc(a.mem(), key, max_seq);
        lemma_inputs_sound(c, levels, j, d);
        lemma_job_parts::<D::Error>(c, levels, j, w, d);
        lemma_output_offers(c, j, w.all(), d, key, max_seq);
        lemma_inputs_offer(c, j, d, key, max_seq);
        let was = offered(c, j, d, key, max_seq);
        let fo = first_at(w.all(), key, max_seq);
        if was is Some {
            let e = was->0;
            Self::lemma_input_held(a, j, e);
            let i = choose|i: int|
                0 <= i < j.inputs.len() && first_at(
                    tab_recs(c, (#[trigger] j.inputs[i]).1, d),
                    key,
                    max_seq,
                ) == Some(e);
            let (l, u) = j.inputs[i];
            assert(levels[l].contains(u));
            let z = choose|z: int| 0 <= z < levels[l].len() && levels[l][z] == u;
            let m = lemma_order_has(levels, l, z);
            lemma_acc_best(a0, c, ro, d, key, max_seq, None);
            assert(first_at(tab_recs(c, ro[m], d), key, max_seq) == Some(e));
        }
        if fo is Some {
            assert(w.all().len() > 0);
            Self::lemma_output_is(a, b, j, w);
            let u = a.job_result(j, w)->0;
            let m = choose|m: int| 0 <= m < r1.len() && #[trigger] r1[m] == u;
            lemma_acc_best(a0, c1, r1, d, key, max_seq, None);
            assert(first_at(tab_recs(c1, r1[m], d), key, max_seq) == fo);
        }
    }

    /// Where the newest version before the commit comes from.
    proof fn lemma_best_before(
        a: &Self,
        b: &Self,
        j: JobV,
        w: WriterV,
        key: Seq<u8>,
        max_seq: u64,
    )
        requires
            a.wf(),
            a.sound(),
            a.job_fits(j),
            keep_wf(j.keep),
            watched(j, max_seq),
            job_data::<D::Error>(a.content(), j, BLOCK as int, KEY_MAX, VAL_MAX) == Ok::<
                WriterV,
                Error<D::Error>,
            >(w),
            Self::committed(a, b, j, w),
            b.sound(),
        ensures
            ({
                let was = offered(a.content(), j, Self::dims(), key, max_seq);
                let m = mem_acc(a.mem(), key, max_seq).best;
                let x = a.found(key, max_seq).best;
                let y = b.found(key, max_seq).best;
                &&& x matches Some(e) ==> {
                    &&& a.has_version(e)
                    &&& e.key == key
                    &&& {
                        ||| x == m
                        ||| was is Some && e.seq <= best_seq(was)
                        ||| a.held_aside(j, e) && e.seq <= best_seq(y)
                    }
                }
                &&& x != m ==> x is Some && best_seq(m) < best_seq(x)
                &&& best_seq(m) <= best_seq(x)
                &&& m matches Some(e) ==> a.held_aside(j, e) && e.key == key
            }),
    {
        let d = Self::dims();
        let c = a.content();
        let c1 = b.content();
        let levels = a.man().levels;
        let ro = read_order(levels);
        let r1 = read_order(b.man().levels);
        let a0 = mem_acc(a.mem(), key, max_seq);
        let x = a.found(key, max_seq).best;
        lemma_acc_best(a0, c, ro, d, key, max_seq, None);
        Self::lemma_offer_held(a, key, max_seq);
        if x is Some && x != a0.best {
            let k = choose|k: int|
                0 <= k < ro.len() && first_at(tab_recs(c, (#[trigger] ro[k]), d), key, max_seq) == x;
            let t = ro[k];
            Self::lemma_read_before(a, b, j, w, k);
            if exists|i: int| 0 <= i < j.inputs.len() && (#[trigger] j.inputs[i]).1 == t {
                let i = choose|i: int| 0 <= i < j.inputs.len() && (#[trigger] j.inputs[i]).1 == t;
                lemma_inputs_sound(c, levels, j, d);
                lemma_job_parts::<D::Error>(c, levels, j, w, d);
                lemma_inputs_offer(c, j, d, key, max_seq);
                assert(first_at(tab_recs(c, j.inputs[i].1, d), key, max_seq) == x);
            } else {
                let m = choose|m: int| 0 <= m < r1.len() && #[trigger] r1[m] == t;
                lemma_acc_best(a0, c1, r1, d, key, max_seq, None);
                assert(first_at(tab_recs(c1, r1[m], d), key, max_seq) == x);
                assert(a.held_aside(j, x->0));
            }
        }
    }

    /// Where the newest version after the commit comes from.
    proof fn lemma_best_after(
        a: &Self,
        b: &Self,
        j: JobV,
        w: WriterV,
        key: Seq<u8>,
        max_seq: u64,
    )
        requires
            a.wf(),
            a.sound(),
            a.job_fits(j),
            keep_wf(j.keep),
            watched(j, max_seq),
            job_data::<D::Error>(a.content(), j, BLOCK as int, KEY_MAX, VAL_MAX) == Ok::<
                WriterV,
                Error<D::Error>,
            >(w),
            Self::committed(a, b, j, w),
            b.sound(),
        ensures
            ({
                let fo = first_at(w.all(), key, max_seq);
                let m = mem_acc(a.mem(), key, max_seq).best;
                let x = a.found(key, max_seq).best;
                let y = b.found(key, max_seq).best;
                &&& y matches Some(e) ==> {
                    ||| y == m
                    ||| y == fo
                    ||| {
                        &&& a.held_aside(j, e)
                        &&& a.has_version(e)
                        &&& e.key == key
                        &&& e.seq <= best_seq(x)
                    }
                }
                &&& y != m ==> y is Some && best_seq(m) < best_seq(y)
                &&& best_seq(m) <= best_seq(y)
            }),
    {
        let d = Self::dims();
        let c = a.content();
        let c1 = b.content();
        let ro = read_order(a.man().levels);
        let r1 = read_order(b.man().levels);
        let a0 = mem_acc(a.mem(), key, max_seq);
        let y = b.found(key, max_seq).best;
        lemma_acc_best(a0, c1, r1, d, key, max_seq, None);
        if y is Some && y != a0.best {
            let k = choose|k: int|
                0 <= k < r1.len() && first_at(tab_recs(c1, #[trigger] r1[k], d), key, max_seq)
                    == y;
            let t = r1[k];
            Self::lemma_read_after(a, b, j, w, k);
            if a.job_result(j, w) == Some(t) && tab_recs(c1, t, d) == w.all() {
            } else {
                let m = choose|m: int| 0 <= m < ro.len() && #[trigger] ro[m] == t;
                lemma_acc_best(a0, c, ro, d, key, max_seq, None);
                Self::lemma_offer_held(a, key, max_seq);
                assert(first_at(tab_recs(c, ro[m], d), key, max_seq) == y);
                assert(a.held_aside(j, y->0) && a.has_version(y->0));
            }
        }
    }

    /// The newest version after the commit is the same, or reads the same.
    proof fn lemma_best_same(
        a: &Self,
        j: JobV,
        was: Option<Rec>,
        fo: Option<Rec>,
        m: Option<Rec>,
        x: Option<Rec>,
        y: Option<Rec>,
        key: Seq<u8>,
    )
        requires
            a.versions_agree(),
            a.guards(j),
            reads_alike(j.keep, was, fo),
            was matches Some(e) ==> a.has_version(e) && a.held_input(j, e) && e.key == key && e.seq
                <= best_seq(x),
            fo matches Some(f) ==> f.seq <= best_seq(y),
            x matches Some(e) ==> {
                &&& a.has_version(e)
                &&& e.key == key
                &&& {
                    ||| x == m
                    ||| was is Some && e.seq <= best_seq(was)
                    ||| a.held_aside(j, e) && e.seq <= best_seq(y)
                }
            },
            x != m ==> x is Some && best_seq(m) < best_seq(x),
            best_seq(m) <= best_seq(x),
            m matches Some(e) ==> a.held_aside(j, e) && e.key == key,
            y matches Some(e) ==> {
                ||| y == m
                ||| y == fo
                ||| {
                    &&& a.held_aside(j, e)
                    &&& a.has_version(e)
                    &&& e.key == key
                    &&& e.seq <= best_seq(x)
                }
            },
            y != m ==> y is Some && best_seq(m) < best_seq(y),
            best_seq(m) <= best_seq(y),
        ensures
            ({
                ||| x == y
                ||| (x matches Some(e) && y == Some(settled(j.keep, e)))
                ||| (x matches Some(e) && y is None && deletes(j.keep, e))
            }),
    {
        assert(m is Some ==> a.has_version(m->0));
        if fo is Some {
            let e = was->0;
            assert(fo == Some(settled(j.keep, e)));
            assert(best_seq(x) == best_seq(y));
            if x is Some && y is Some {
                if y == fo {
                    assert(x->0.seq == e.seq);
                    assert(x->0 == e);
                } else {
                    assert(x->0 == y->0);
                }
            }
        } else if was is None {
            assert(best_seq(x) == best_seq(y));
            if x is Some && y is Some {
                assert(x->0 == y->0);
            }
        } else {
            let e = was->0;
            assert(drops(j.keep, e));
            if m is Some {
                assert(m->0.seq > e.seq);
            }
            if x is Some && a.held_aside(j, x->0) {
                assert(x->0.seq > e.seq);
            }
            if y is Some {
                assert(a.held_aside(j, y->0));
                assert(y->0.seq > e.seq);
                assert(best_seq(x) == best_seq(y));
                assert(x->0 == y->0);
            } else if x is Some {
                assert(x->0.seq == e.seq);
                assert(x->0 == e);
            }
        }
    }

    /// Compaction keeps every read that can still be made: once a job has
    /// committed, a read at the live view or at a snapshot that the job
    /// knows of returns what it returned before, at any tick not before the
    /// one up to which expired entries were purged.
    pub proof fn law_compaction_keeps_reads(
        a: &Self,
        b: &Self,
        j: JobV,
        w: WriterV,
        key: Seq<u8>,
        max_seq: u64,
        now: u64,
    )
        requires
            a.wf(),
            a.sound(),
            a.versions_agree(),
            a.guards(j),
            a.job_fits(j),
            keep_wf(j.keep),
            job_data::<D::Error>(a.content(), j, BLOCK as int, KEY_MAX, VAL_MAX) == Ok::<
                WriterV,
                Error<D::Error>,
            >(w),
            Self::committed(a, b, j, w),
            watched(j, max_seq),
            now >= j.keep.purge_before,
        ensures
            b.sound(),
            b.value_at(key, max_seq, now) == a.value_at(key, max_seq, now),
    {
        Self::lemma_commit_sound(a, b, j, w);
        Self::lemma_cover_same(a, b, j, w, key, max_seq);
        Self::lemma_offers_found(a, b, j, w, key, max_seq);
        Self::lemma_best_before(a, b, j, w, key, max_seq);
        Self::lemma_best_after(a, b, j, w, key, max_seq);
        Self::lemma_best_same(
            a,
            j,
            offered(a.content(), j, Self::dims(), key, max_seq),
            first_at(w.all(), key, max_seq),
            mem_acc(a.mem(), key, max_seq).best,
            a.found(key, max_seq).best,
            b.found(key, max_seq).best,
            key,
        );
    }

    /// A selected job can run, and nothing outside it is older than a
    /// deletion that it may drop; it knows every live snapshot.
    pub proof fn law_selection_guards(m: &Self, j: JobV)
        requires
            m.wf(),
            m.sound(),
            m.selects(j),
        ensures
            m.job_fits(j),
            m.guards(j),
            keep_wf(j.keep),
            watched(j, u64::MAX),
            forall|i: int| 0 <= i < m.snaps().len() ==> watched(j, #[trigger] m.snaps()[i]),
    {
        m.lemma_tidy_seated();
        m.lemma_selects_fits(j);
        let levels = m.man().levels;
        let d = Self::dims();
        let c = m.content();
        let src = m.job_source()->0;
        let p = m.job_pick(src)->Ok_0;
        let ss = super::compaction::heads(levels[src], TABLES as int);
        let ts = super::compaction::heads(levels[src + 1], TABLES as int);
        super::select::lemma_picked_closes::<D::Error>(src, ss, ts);
        assert(picked::<D::Error>(src, ss, ts) == Ok::<PickV, Error<D::Error>>(p));
        lemma_inputs_sound(c, levels, j, d);
        assert forall|e: Rec, f: Rec|
            #![trigger m.held_input(j, e), m.held_aside(j, f)]
            m.held_input(j, e) && m.held_aside(j, f) && e.key == f.key && drops(
                j.keep,
                e,
            ) implies f.seq > e.seq by {
            let floor = j.keep.outside_min_seq;
            let x = choose|x: int|
                0 <= x < j.inputs.len() && tab_recs(c, (#[trigger] j.inputs[x]).1, d).contains(e);
            let t = j.inputs[x].1;
            assert(tab_sound(c, j.inputs[x].1, d));
            let run = tab_run(c, t, d);
            assert(is_run_of(run, c, t, d));
            let g = run.recs().index_of(e);
            assert(rec_inside(t, run.recs()[g]));
            assert(lex_le(p.first, p.inputs[x].1.first_key) && lex_le(
                p.inputs[x].1.last_key,
                p.last,
            ));
            crate::bytes::lemma_lex_le_le(p.first, t.first_key, e.key);
            crate::bytes::lemma_lex_le_le(e.key, t.last_key, p.last);
            if m.mem_has(f) {
                let k = m.mem().index_of(f);
                crate::memtable::lemma_top_bound(m.mem(), k);
            } else {
                let (l, i) = choose|l: int, i: int| #[trigger]
                    m.table_has(l, i, f) && !in_job(j.inputs, levels[l][i].id);
                let u = levels[l][i];
                assert(at(levels, l, i));
                assert(tab_sound(c, levels[l][i], d));
                let r2 = tab_run(c, u, d);
                assert(is_run_of(r2, c, u, d));
                let h = r2.recs().index_of(f);
                assert(rec_inside(u, r2.recs()[h]));
                crate::bytes::lemma_lex_le_le(p.first, e.key, u.last_key);
                crate::bytes::lemma_lex_le_le(u.first_key, e.key, p.last);
                assert(super::select::outside(p.inputs, p.first, p.last, levels[l][i]));
            }
        }
        assert forall|t: int| 0 <= t < j.keep.snapshots.len() implies
            #[trigger] j.keep.snapshots[t] >= j.keep.oldest_snapshot by {
            assert(m.snaps().contains(j.keep.snapshots[t]));
        }
        assert forall|i: int| 0 <= i < m.snaps().len() implies watched(
            j,
            #[trigger] m.snaps()[i],
        ) by {
            assert(j.keep.snapshots.contains(m.snaps()[i]));
        }
    }
}

} // verus!

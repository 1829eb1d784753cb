//! What a compaction keeps: the tables stay sound, and every read stays.

use vstd::prelude::*;

use super::compaction::{
    counts_fit, inputs_live, inputs_once, job_data, job_rdels, job_run, job_sections, job_start,
    job_streams, job_tab, joined_by, without, JobV,
};
use super::flush::{
    first_point, last_point, lemma_greater, lemma_group_bounds, lemma_group_top_is, lemma_lesser,
    lemma_rdel_bounds, lemma_rdels_top_is,
};
use super::place::{
    at, housed, lemma_place_insert, lemma_tables_kept_both, lemma_top_flat, occupied, placed, sits,
};
use super::select::in_job;
use super::step::input_slot;
use super::view::{
    is_run_of, lemma_tab_is, rdel_inside, rec_inside, tab_rdels, tab_recs, tab_run, tab_sound, DimsV,
};
use super::{cached_ok, ids_ok, issued, live_id, Db};
use crate::bytes::lex_le;
use crate::compact::bounds::{greatest_end, least_start};
use crate::compact::cursor::{law_table_streams, rec_within, recs_within, table_stream, StreamV};
use crate::compact::rdel_merge::{
    law_rdel_merge_keeps_cover, law_section_streams, lemma_output_below, rdel_stream, rdel_within, rdels_within,
    rsorted, section_sorted, sections_sorted, RStreamV, ShadowV,
};
use crate::compact::sift::{
    among, held, law_merge_order, law_sift_keeps_order, mergeable, settled, settled_from, sifted,
    sorted_stream, zipped,
};
use crate::device::BlockDevice;
use crate::error::Error;
use crate::manifest::{data_blocks_of, index_of_id, lead_below};
use crate::manifest_format::TabV;
use crate::memtable::{key_sorted, runs_newest_first, Rec};
use crate::slots::SlotMap;
use crate::sstable::format::{group_top, stored, RdelV, RDEL_TRAILER};
use crate::sstable::rdel::{law_rpack, rdel_shape, rdels_top};
use crate::sstable::writer::{law_push_all, push_all, sealed_writer, stored_all, WriterV};

verus! {

/// The levels without the inputs hold the other tables, and no input.
pub(super) proof fn lemma_without_is(levels: Seq<Seq<TabV>>, inputs: Seq<(int, TabV)>, next_id: u32)
    requires
        ids_ok(levels, next_id),
        inputs_live(levels, inputs),
        inputs_once(inputs),
    ensures
        without(levels, inputs).len() == levels.len(),
        ids_ok(without(levels, inputs), next_id),
        forall|l: int, i: int|
            at(without(levels, inputs), l, i) ==> levels[l].contains(
                #[trigger] without(levels, inputs)[l][i],
            ) && !in_job(inputs, without(levels, inputs)[l][i].id),
        forall|l: int, i: int|
            at(levels, l, i) && !in_job(inputs, (#[trigger] levels[l][i]).id) ==> without(
                levels,
                inputs,
            )[l].contains(levels[l][i]),
    decreases inputs.len(),
{
    let ls = without(levels, inputs);
    if inputs.len() == 0 {
        assert forall|l: int, i: int| at(levels, l, i) implies levels[l].contains(
            #[trigger] levels[l][i],
        ) by {}
    } else {
        let d = inputs.drop_last();
        let n = inputs.len() - 1;
        assert forall|i: int| 0 <= i < d.len() implies 0 <= (#[trigger] d[i]).0 < levels.len()
            && levels[d[i].0].contains(d[i].1) by {
            assert(d[i] == inputs[i]);
        }
        assert forall|x: int, y: int| 0 <= x < y < d.len() implies (
        #[trigger] d[x]).1.first_block != (#[trigger] d[y]).1.first_block by {
            assert(inputs[x].1.first_block != inputs[y].1.first_block);
        }
        lemma_without_is(levels, d, next_id);
        let ms = without(levels, d);
        let (l0, t) = inputs[n];
        let p = index_of_id(ms[l0], t.id);
        crate::manifest::lemma_index_of_id(ms[l0], t.id);
        assert(levels[inputs[n].0].contains(inputs[n].1));
        let k = choose|k: int| 0 <= k < levels[l0].len() && levels[l0][k] == t;
        assert(at(levels, l0, k));
        assert(!in_job(d, t.id)) by {
            if in_job(d, t.id) {
                let x = choose|x: int| 0 <= x < d.len() && (#[trigger] d[x]).1.id == t.id;
                assert(inputs[x] == d[x]);
                lemma_same_id(levels, inputs, x, l0, k, next_id);
                assert(inputs[x].1.first_block != inputs[n].1.first_block);
            }
        }
        assert(ms[l0].contains(levels[l0][k]));
        let q = choose|q: int| 0 <= q < ms[l0].len() && ms[l0][q] == t;
        assert(at(ms, l0, q));
        assert(p <= q) by {
            if q < p {
                assert(ms[l0][q].id != t.id);
            }
        }
        assert(at(ms, l0, p) && ms[l0][p].id == ms[l0][q].id);
        assert(p == q);
        assert(ls == ms.update(l0, ms[l0].remove(p)));
        // Where a table of `ls` stands in `ms`.
        assert forall|l: int, i: int| at(ls, l, i) implies at(
            ms,
            l,
            if l == l0 && i >= p {
                i + 1
            } else {
                i
            },
        ) && #[trigger] ls[l][i] == ms[l][if l == l0 && i >= p {
            i + 1
        } else {
            i
        }] by {}
        assert forall|l: int, i: int| at(ls, l, i) implies levels[l].contains(#[trigger] ls[l][i])
            && !in_job(inputs, ls[l][i].id) by {
            let i1 = if l == l0 && i >= p {
                i + 1
            } else {
                i
            };
            assert(at(ms, l, i1) && ls[l][i] == ms[l][i1]);
            assert(levels[l].contains(ms[l][i1]));
            assert(!in_job(d, ms[l][i1].id));
            if in_job(inputs, ls[l][i].id) {
                let x = choose|x: int|
                    0 <= x < inputs.len() && (#[trigger] inputs[x]).1.id == ls[l][i].id;
                if x < n {
                    assert(d[x].1.id == ms[l][i1].id);
                } else {
                    assert(ms[l][i1].id == ms[l0][p].id);
                }
            }
        }
        assert forall|l: int, i: int|
            at(levels, l, i) && !in_job(inputs, (#[trigger] levels[l][i]).id) implies ls[l].contains(
            levels[l][i],
        ) by {
            let u = levels[l][i];
            if in_job(d, u.id) {
                let x = choose|x: int| 0 <= x < d.len() && (#[trigger] d[x]).1.id == u.id;
                assert(inputs[x].1.id == u.id);
            }
            assert(ms[l].contains(levels[l][i]));
            let y = choose|y: int| 0 <= y < ms[l].len() && ms[l][y] == u;
            if l == l0 {
                if y == p {
                    assert(inputs[n].1.id == u.id);
                }
                assert(ls[l][if y < p {
                    y
                } else {
                    y - 1
                }] == u);
            } else {
                assert(ls[l][y] == u);
            }
        }
        assert forall|l: int, i: int| at(ls, l, i) implies issued((#[trigger] ls[l][i]).id, next_id) by {
            let i1 = if l == l0 && i >= p {
                i + 1
            } else {
                i
            };
            assert(at(ms, l, i1) && ls[l][i] == ms[l][i1]);
        }
        assert forall|l: int, i: int, m: int, x: int|
            at(ls, l, i) && at(ls, m, x) && (#[trigger] ls[l][i]).id == (
            #[trigger] ls[m][x]).id implies l == m && i == x by {
            let i1 = if l == l0 && i >= p {
                i + 1
            } else {
                i
            };
            let x1 = if m == l0 && x >= p {
                x + 1
            } else {
                x
            };
            assert(at(ms, l, i1) && ls[l][i] == ms[l][i1]);
            assert(at(ms, m, x1) && ls[m][x] == ms[m][x1]);
        }
    }
}

/// A table of another place than the inputs is no input.
pub(super) proof fn lemma_same_id(levels: Seq<Seq<TabV>>, inputs: Seq<(int, TabV)>, x: int, l: int, i: int, next_id: u32)
    requires
        ids_ok(levels, next_id),
        inputs_live(levels, inputs),
        0 <= x < inputs.len(),
        at(levels, l, i),
        levels[l][i].id == inputs[x].1.id,
    ensures
        levels[l][i] == inputs[x].1,
        l == inputs[x].0,
{
    let (m, t) = inputs[x];
    assert(levels[m].contains(t));
    let k = choose|k: int| 0 <= k < levels[m].len() && levels[m][k] == t;
    assert(at(levels, m, k));
}

/// The other tables keep their places when the inputs' slots are freed.
proof fn lemma_without_placed(
    a: SlotMap,
    b: SlotMap,
    levels: Seq<Seq<TabV>>,
    inputs: Seq<(int, TabV)>,
    next_id: u32,
)
    requires
        a.wf(),
        placed(a, levels),
        ids_ok(levels, next_id),
        inputs_live(levels, inputs),
        inputs_once(inputs),
        b.same_layout(&a),
        forall|i: u32| #[trigger] b.used(i) == (a.used(i) && !input_slot(a, inputs, i)),
    ensures
        placed(b, without(levels, inputs)),
{
    let ls = without(levels, inputs);
    lemma_without_is(levels, inputs, next_id);
    assert forall|t: TabV, s: u32| #[trigger] sits(b, t, s) == sits(a, t, s) by {
        super::place::lemma_sits_same(b, a, t, s);
    }
    assert forall|l: int, i: int| at(ls, l, i) implies housed(b, #[trigger] ls[l][i]) by {
        let t = ls[l][i];
        assert(levels[l].contains(t));
        let k = choose|k: int| 0 <= k < levels[l].len() && levels[l][k] == t;
        assert(at(levels, l, k));
        assert(housed(a, levels[l][k]));
        let s = choose|s: u32| #[trigger] sits(a, t, s) && a.used(s);
        if input_slot(a, inputs, s) {
            let x = choose|x: int| 0 <= x < inputs.len() && sits(a, (#[trigger] inputs[x]).1, s);
            let (m, u) = inputs[x];
            assert(levels[m].contains(u));
            let y = choose|y: int| 0 <= y < levels[m].len() && levels[m][y] == u;
            assert(at(levels, m, y));
            assert(sits(a, levels[m][y], s) && sits(a, levels[l][k], s));
            assert(in_job(inputs, t.id));
        }
        assert(b.used(s));
        assert(sits(b, t, s));
    }
    assert forall|l: int, i: int, m: int, x: int, s: u32|
        at(ls, l, i) && at(ls, m, x) && #[trigger] sits(b, ls[l][i], s) && #[trigger] sits(
            b,
            ls[m][x],
            s,
        ) implies l == m && i == x by {
        let t = ls[l][i];
        let u = ls[m][x];
        assert(levels[l].contains(t) && levels[m].contains(u));
        let k = choose|k: int| 0 <= k < levels[l].len() && levels[l][k] == t;
        let y = choose|y: int| 0 <= y < levels[m].len() && levels[m][y] == u;
        assert(at(levels, l, k) && at(levels, m, y));
        assert(sits(a, levels[l][k], s) && sits(a, levels[m][y], s));
        assert(t.id == u.id);
    }
    assert forall|s: u32| #[trigger] b.used(s) implies occupied(b, ls, s) by {
        assert(a.used(s) && !input_slot(a, inputs, s));
        assert(occupied(a, levels, s));
        let (l, i) = choose|l: int, i: int| at(levels, l, i) && #[trigger] sits(a, levels[l][i], s);
        let t = levels[l][i];
        if in_job(inputs, t.id) {
            let x = choose|x: int| 0 <= x < inputs.len() && (#[trigger] inputs[x]).1.id == t.id;
            lemma_same_id(levels, inputs, x, l, i, next_id);
            assert(sits(a, inputs[x].1, s));
        }
        assert(ls[l].contains(levels[l][i]));
        let k = choose|k: int| 0 <= k < ls[l].len() && ls[l][k] == t;
        assert(at(ls, l, k) && sits(b, ls[l][k], s));
    }
}

/// A table under the next id joins.
pub(super) proof fn lemma_joined_ids(ls: Seq<Seq<TabV>>, l: int, t: TabV, next_id: u32)
    requires
        ids_ok(ls, next_id),
        0 <= l < ls.len(),
        t.id == next_id,
        next_id < u32::MAX,
    ensures
        ids_ok(joined_by(ls, l, t), (next_id + 1) as u32),
        forall|m: int, i: int|
            at(joined_by(ls, l, t), m, i) ==> (#[trigger] joined_by(ls, l, t)[m][i] == t && m == l)
                || ls[m].contains(joined_by(ls, l, t)[m][i]),
{
    let p = lead_below(ls[l], t.first_key);
    crate::manifest::lemma_lead_below(ls[l], t.first_key);
    let js = joined_by(ls, l, t);
    let next = (next_id + 1) as u32;
    assert forall|m: int, i: int| at(js, m, i) implies issued((#[trigger] js[m][i]).id, next) by {
        if !(m == l && i == p) {
            let k = if m == l && i > p {
                i - 1
            } else {
                i
            };
            assert(at(ls, m, k) && js[m][i] == ls[m][k]);
            assert(issued(ls[m][k].id, next_id));
        }
    }
    assert forall|m: int, i: int, n: int, x: int|
        at(js, m, i) && at(js, n, x) && (#[trigger] js[m][i]).id == (
        #[trigger] js[n][x]).id implies m == n && i == x by {
        if !(m == l && i == p) {
            let k = if m == l && i > p {
                i - 1
            } else {
                i
            };
            assert(at(ls, m, k) && js[m][i] == ls[m][k]);
            assert(issued(ls[m][k].id, next_id));
        }
        if !(n == l && x == p) {
            let k = if n == l && x > p {
                x - 1
            } else {
                x
            };
            assert(at(ls, n, k) && js[n][x] == ls[n][k]);
            assert(issued(ls[n][k].id, next_id));
        }
    }
    assert forall|m: int, i: int| at(js, m, i) implies (#[trigger] js[m][i] == t && m == l)
        || ls[m].contains(js[m][i]) by {
        if !(m == l && i == p) {
            let k = if m == l && i > p {
                i - 1
            } else {
                i
            };
            assert(at(ls, m, k) && js[m][i] == ls[m][k]);
        }
    }
}

/// A commit leaves every live table in a slot and under an id of its own.
pub(super) proof fn lemma_commit_tidy(
    a: SlotMap,
    mid: SlotMap,
    b: SlotMap,
    levels: Seq<Seq<TabV>>,
    j: JobV,
    out: Option<TabV>,
    next_id: u32,
)
    requires
        a.wf(),
        mid.wf(),
        placed(a, levels),
        ids_ok(levels, next_id),
        inputs_live(levels, j.inputs),
        inputs_once(j.inputs),
        0 <= j.target < levels.len(),
        mid.same_layout(&a),
        b.same_layout(&mid),
        forall|i: u32| #[trigger] mid.used(i) == (a.used(i) && !input_slot(a, j.inputs, i)),
        forall|i: u32| #[trigger] b.used(i) == (mid.used(i) || (out is Some && i == j.slot)),
        !a.used(j.slot),
        out matches Some(t) ==> sits(a, t, j.slot) && t.id == next_id && next_id < u32::MAX,
    ensures
        placed(b, super::step::compacted(levels, j, out)),
        ids_ok(
            super::step::compacted(levels, j, out),
            if out is Some {
                (next_id + 1) as u32
            } else {
                next_id
            },
        ),
{
    let ls = without(levels, j.inputs);
    lemma_without_is(levels, j.inputs, next_id);
    lemma_without_placed(a, mid, levels, j.inputs, next_id);
    match out {
        Some(t) => {
            crate::manifest::lemma_lead_below(ls[j.target], t.first_key);
            lemma_joined_ids(ls, j.target, t, next_id);
            super::place::lemma_sits_same(mid, a, t, j.slot);
            lemma_place_insert(
                mid,
                b,
                ls,
                j.target,
                lead_below(ls[j.target], t.first_key),
                t,
                j.slot,
            );
        },
        None => {
            super::place::lemma_place_same(mid, b, ls);
        },
    }
}

/// The first start is at most every start; the last end at least every end.
pub(super) proof fn lemma_section_bounds(rs: Seq<RdelV>, i: int, key_max: usize)
    requires
        rdels_within(rs, key_max),
        0 <= i < rs.len(),
    ensures
        least_start(rs).len() >= 1,
        greatest_end(rs).len() >= 1,
        lex_le(least_start(rs), rs[i].start),
        lex_le(rs[i].end, greatest_end(rs)),
    decreases rs.len(),
{
    let d = rs.drop_last();
    let n = rs.len() - 1;
    assert forall|k: int| 0 <= k < d.len() implies rdel_within(#[trigger] d[k], key_max) by {
        assert(rdel_within(rs[k], key_max));
    }
    assert(rdel_within(rs[n], key_max));
    lemma_lesser(least_start(d), rs.last().start);
    lemma_greater(greatest_end(d), rs.last().end);
    if d.len() > 0 {
        lemma_section_bounds(d, 0, key_max);
    }
    if i < n {
        lemma_section_bounds(d, i, key_max);
        assert(d[i] == rs[i]);
        crate::bytes::lemma_lex_le_le(least_start(rs), least_start(d), rs[i].start);
        crate::bytes::lemma_lex_le_le(rs[i].end, greatest_end(d), greatest_end(rs));
    }
}

/// A sound table streams its entries and tombstones.
pub(super) proof fn lemma_tab_streams(c: Map<u64, Seq<u8>>, t: TabV, d: DimsV)
    requires
        tab_sound(c, t, d),
    ensures
        table_stream(c, t, d.key_max, d.val_max) == (StreamV {
            recs: tab_recs(c, t, d),
            fault: None,
        }),
        rdel_stream(c, t, d.key_max) == (RStreamV { rs: tab_rdels(c, t, d), fault: None }),
        recs_within(tab_recs(c, t, d), d.key_max, d.val_max),
        key_sorted(tab_recs(c, t, d)),
        runs_newest_first(tab_recs(c, t, d)),
        rdels_within(tab_rdels(c, t, d), d.key_max),
        rsorted(tab_rdels(c, t, d)),
{
    let run = tab_run(c, t, d);
    assert(is_run_of(run, c, t, d));
    law_table_streams(run, c, d.block, d.bloom, d.key_max, d.val_max);
    assert(data_blocks_of(t) == Some(run.groups.len() as u64));
    assert(run.rgroups.skip(0) =~= run.rgroups);
    law_section_streams(c, run.rdel_at() as u64, run.rgroups, d.block, d.key_max, 0);
}

/// What a job's output table holds.
pub(super) proof fn lemma_job_parts<E>(
    c: Map<u64, Seq<u8>>,
    levels: Seq<Seq<TabV>>,
    j: JobV,
    w: WriterV,
    d: DimsV,
)
    requires
        inputs_live(levels, j.inputs),
        forall|l: int, i: int| at(levels, l, i) ==> tab_sound(c, #[trigger] levels[l][i], d),
        job_data::<E>(c, j, d.block, d.key_max, d.val_max) == Ok::<WriterV, Error<E>>(w),
    ensures
        ({
            let es = zipped(job_streams(c, j, d.key_max, d.val_max)).recs;
            &&& mergeable(job_streams(c, j, d.key_max, d.val_max))
            &&& sections_sorted(job_sections(c, j, d.key_max))
            &&& w.all() == sifted(j.keep, None, es)
            &&& w.base == j.base
            &&& w.k == j.k
            &&& w.groups.len() <= j.limit
            &&& w.cur.len() == 0
            &&& key_sorted(w.all())
            &&& runs_newest_first(w.all())
            &&& recs_within(w.all(), d.key_max, d.val_max)
            &&& recs_within(es, d.key_max, d.val_max)
        }),
{
    let ss = job_streams(c, j, d.key_max, d.val_max);
    let es = zipped(ss).recs;
    let out = sifted(j.keep, None, es);
    assert forall|i: int| 0 <= i < j.inputs.len() implies sorted_stream(#[trigger] ss[i])
        && recs_within(ss[i].recs, d.key_max, d.val_max) && ss[i].recs == tab_recs(
        c,
        j.inputs[i].1,
        d,
    ) by {
        let (l, t) = j.inputs[i];
        assert(levels[l].contains(t));
        let k = choose|k: int| 0 <= k < levels[l].len() && levels[l][k] == t;
        assert(at(levels, l, k));
        assert(tab_sound(c, levels[l][k], d));
        lemma_tab_streams(c, t, d);
    }
    let qs = job_sections(c, j, d.key_max);
    assert forall|i: int| 0 <= i < qs.len() implies section_sorted(#[trigger] qs[i]) by {
        let (l, t) = j.inputs[i];
        assert(levels[l].contains(t));
        let k = choose|k: int| 0 <= k < levels[l].len() && levels[l][k] == t;
        assert(at(levels, l, k));
        assert(tab_sound(c, levels[l][k], d));
        lemma_tab_streams(c, t, d);
    }
    law_merge_order(ss);
    law_sift_keeps_order(j.keep, None, es);
    assert forall|g: int| 0 <= g < es.len() implies rec_within(
        #[trigger] es[g],
        d.key_max,
        d.val_max,
    ) by {
        assert(among(ss, es[g]));
        let (i, h) = choose|i: int, h: int| held(ss, i, h) && #[trigger] ss[i].recs[h] == es[g];
        assert(recs_within(ss[i].recs, d.key_max, d.val_max));
    }
    assert forall|g: int| 0 <= g < out.len() implies rec_within(
        #[trigger] out[g],
        d.key_max,
        d.val_max,
    ) && stored(out[g]) == out[g] by {
        assert(settled_from(j.keep, es, out[g]));
        let h = choose|h: int| 0 <= h < es.len() && out[g] == settled(j.keep, #[trigger] es[h]);
        assert(rec_within(es[h], d.key_max, d.val_max));
    }
    assert(stored_all(out) =~= out);
    law_push_all::<E>(job_start(j), out, d.block, d.key_max);
    let w1 = push_all::<E>(job_start(j), out, d.block, d.key_max)->Ok_0;
    assert(job_start(j).all() =~= Seq::<Rec>::empty());
    assert(w1.all() =~= out);
    assert(w == sealed_writer(w1));
    assert(w.all() =~= w1.all()) by {
        if w1.cur.len() > 0 {
            assert(w.groups.drop_last() =~= w1.groups);
        }
    }
}

/// A job's output table is that of its reference.
pub(super) proof fn lemma_job_run<E>(
    c: Map<u64, Seq<u8>>,
    c1: Map<u64, Seq<u8>>,
    levels: Seq<Seq<TabV>>,
    j: JobV,
    w: WriterV,
    id: u32,
    d: DimsV,
)
    requires
        inputs_live(levels, j.inputs),
        forall|l: int, i: int| at(levels, l, i) ==> tab_sound(c, #[trigger] levels[l][i], d),
        job_data::<E>(c, j, d.block, d.key_max, d.val_max) == Ok::<WriterV, Error<E>>(w),
        rdel_shape(d.block),
        d.key_max <= 0xFFFF,
        12 + 2 * d.key_max + RDEL_TRAILER <= d.block,
        ({
            let rs = job_rdels(c, j, d.key_max).rs;
            let run = job_run(w, rs, d.block);
            &&& counts_fit(w, rs, d.block)
            &&& run.wf(d.block, d.bloom)
            &&& run.on(c1, d.block, d.bloom)
            &&& rdels_within(rs, d.key_max)
        }),
    ensures
        is_run_of(
            job_run(w, job_rdels(c, j, d.key_max).rs, d.block),
            c1,
            job_tab(w, job_rdels(c, j, d.key_max).rs, id, d.block),
            d,
        ),
        job_run(w, job_rdels(c, j, d.key_max).rs, d.block).recs() == w.all(),
        job_run(w, job_rdels(c, j, d.key_max).rs, d.block).rdels() == job_rdels(
            c,
            j,
            d.key_max,
        ).rs,
{
    let rs = job_rdels(c, j, d.key_max).rs;
    let run = job_run(w, rs, d.block);
    let t = job_tab(w, rs, id, d.block);
    let ps = w.all();
    lemma_job_parts::<E>(c, levels, j, w, d);
    assert(run.recs() =~= ps) by {
        assert(w.cur =~= Seq::<Rec>::empty());
    }
    law_rpack(rs, d.block);
    law_rdel_merge_keeps_cover(
        ShadowV { bottommost: j.keep.bottommost, oldest_snapshot: j.keep.oldest_snapshot },
        job_sections(c, j, d.key_max),
        Seq::empty(),
        u64::MAX,
    );
    assert forall|g: int| 0 <= g < ps.len() implies rec_inside(t, #[trigger] ps[g]) by {
        lemma_group_bounds(ps, g);
        assert(rec_within(ps[g], d.key_max, d.val_max));
        assert(rec_within(ps[0], d.key_max, d.val_max));
        assert(rec_within(ps[ps.len() - 1], d.key_max, d.val_max));
        assert(lex_le(ps[0].key, ps[g].key));
        assert(lex_le(ps[g].key, ps[ps.len() - 1].key));
        lemma_lesser(first_point(ps), least_start(rs));
        lemma_greater(last_point(ps), greatest_end(rs));
        crate::bytes::lemma_lex_le_le(t.first_key, ps[0].key, ps[g].key);
        crate::bytes::lemma_lex_le_le(ps[g].key, ps[ps.len() - 1].key, t.last_key);
    }
    assert forall|i: int| 0 <= i < rs.len() implies rdel_inside(t, #[trigger] rs[i]) by {
        lemma_rdel_bounds(rs, i);
        lemma_section_bounds(rs, i, d.key_max);
        lemma_lesser(first_point(ps), least_start(rs));
        lemma_greater(last_point(ps), greatest_end(rs));
        crate::bytes::lemma_lex_le_le(t.first_key, least_start(rs), rs[i].start);
        crate::bytes::lemma_lex_le_le(rs[i].end, greatest_end(rs), t.last_key);
    }
}

/// Where a table that is no input stands after the commit.
pub(super) proof fn lemma_aside_at(
    levels: Seq<Seq<TabV>>,
    j: JobV,
    out: Option<TabV>,
    l: int,
    i: int,
    next_id: u32,
) -> (z: int)
    requires
        ids_ok(levels, next_id),
        inputs_live(levels, j.inputs),
        inputs_once(j.inputs),
        0 <= j.target < levels.len(),
        at(levels, l, i),
        !in_job(j.inputs, levels[l][i].id),
    ensures
        at(super::step::compacted(levels, j, out), l, z),
        super::step::compacted(levels, j, out)[l][z] == levels[l][i],
{
    let t = levels[l][i];
    let ls = without(levels, j.inputs);
    lemma_without_is(levels, j.inputs, next_id);
    assert(ls[l].contains(levels[l][i]));
    let y = choose|y: int| 0 <= y < ls[l].len() && ls[l][y] == t;
    match out {
        Some(u) => {
            crate::manifest::lemma_lead_below(ls[j.target], u.first_key);
            let p = lead_below(ls[j.target], u.first_key);
            if l == j.target && y >= p {
                y + 1
            } else {
                y
            }
        },
        None => y,
    }
}

impl<
    D: BlockDevice,
    const BLOCK: usize,
    const KEY_MAX: usize,
    const VAL_MAX: usize,
    const CAP: usize,
    const ARENA: usize,
    const LEVELS: usize,
    const TABLES: usize,
    const BLOOM_BYTES: usize,
    const CACHE: usize,
> Db<D, BLOCK, KEY_MAX, VAL_MAX, CAP, ARENA, LEVELS, TABLES, BLOOM_BYTES, CACHE> {
    /// Nothing in a job's output is newer than what was issued.
    proof fn lemma_output_issued(a: &Self, j: JobV, w: WriterV)
        requires
            a.wf(),
            a.sound(),
            a.job_fits(j),
            job_data::<D::Error>(a.content(), j, BLOCK as int, KEY_MAX, VAL_MAX) == Ok::<
                WriterV,
                Error<D::Error>,
            >(w),
        ensures
            group_top(w.all()) <= a.issued_seq(),
            rdels_top(job_rdels(a.content(), j, KEY_MAX).rs) <= a.issued_seq(),
    {
        let c = a.content();
        let d = Self::dims();
        let levels = a.man().levels;
        let m = a.issued_seq();
        let ss = job_streams(c, j, KEY_MAX, VAL_MAX);
        let qs = job_sections(c, j, KEY_MAX);
        let es = zipped(ss).recs;
        let rs = job_rdels(c, j, KEY_MAX).rs;
        a.lemma_wf();
        lemma_top_flat(levels, m);
        lemma_job_parts::<D::Error>(c, levels, j, w, d);
        // What each input holds.
        assert forall|i: int| 0 <= i < j.inputs.len() implies (forall|g: int|
            0 <= g < ss[i].recs.len() ==> (#[trigger] ss[i].recs[g]).seq <= m) && (forall|g: int|
            0 <= g < (#[trigger] qs[i]).rs.len() ==> (#[trigger] qs[i].rs[g]).seq <= m) by {
            let (l, t) = j.inputs[i];
            assert(levels[l].contains(t));
            let k = choose|k: int| 0 <= k < levels[l].len() && levels[l][k] == t;
            assert(at(levels, l, k));
            assert(levels[l][k].max_seq <= m);
            assert(tab_sound(c, levels[l][k], d));
            lemma_tab_streams(c, t, d);
            let run = tab_run(c, t, d);
            assert(is_run_of(run, c, t, d));
            assert forall|g: int| 0 <= g < ss[i].recs.len() implies (#[trigger] ss[i].recs[g]).seq
                <= m by {
                assert(rec_inside(t, run.recs()[g]));
            }
            assert forall|g: int| 0 <= g < qs[i].rs.len() implies (#[trigger] qs[i].rs[g]).seq
                <= m by {
                assert(rdel_inside(t, run.rdels()[g]));
            }
        }
        law_merge_order(ss);
        law_sift_keeps_order(j.keep, None, es);
        lemma_group_top_is(w.all());
        if w.all().len() > 0 {
            let g = choose|g: int|
                0 <= g < w.all().len() && (#[trigger] w.all()[g]).seq == group_top(w.all());
            assert(settled_from(j.keep, es, w.all()[g]));
            let h = choose|h: int|
                0 <= h < es.len() && w.all()[g] == settled(j.keep, #[trigger] es[h]);
            assert(among(ss, es[h]));
            let (x, y) = choose|x: int, y: int|
                held(ss, x, y) && #[trigger] ss[x].recs[y] == es[h];
            assert(qs[x].rs.len() >= 0);
            assert(ss[x].recs[y].seq <= m);
        }
        lemma_output_below(
            ShadowV { bottommost: j.keep.bottommost, oldest_snapshot: j.keep.oldest_snapshot },
            qs,
            m,
        );
        lemma_rdels_top_is(rs);
    }

    /// A commit leaves every live table intact.
    pub(super) proof fn lemma_commit_sound(a: &Self, b: &Self, j: JobV, w: WriterV)
        requires
            a.wf(),
            a.sound(),
            a.job_fits(j),
            job_data::<D::Error>(a.content(), j, BLOCK as int, KEY_MAX, VAL_MAX) == Ok::<
                WriterV,
                Error<D::Error>,
            >(w),
            Self::committed(a, b, j, w),
        ensures
            b.sound(),
    {
        reveal(Db::tidy);
        let c = a.content();
        let c1 = b.content();
        let d = Self::dims();
        let levels = a.man().levels;
        let ls = without(levels, j.inputs);
        let l1 = b.man().levels;
        let rs = job_rdels(c, j, KEY_MAX).rs;
        let out = a.job_result(j, w);
        let id = a.man().next_table_id;
        a.lemma_wf();
        a.lemma_copy_at();
        Self::lemma_shape();
        lemma_without_is(levels, j.inputs, id);
        Self::lemma_output_issued(a, j, w);
        lemma_tables_kept_both(
            a.slot_map(),
            a.images(),
            c,
            c1,
            levels,
            d,
            j.slot,
            a.copy_at(),
            a.copy_at() + Self::stride(),
        );
        if out is Some {
            let t = out->0;
            lemma_job_run::<D::Error>(c, c1, levels, j, w, id, d);
            lemma_tab_is(job_run(w, rs, d.block), c1, t, d);
            lemma_joined_ids(ls, j.target, t, id);
        }
        lemma_top_flat(levels, a.issued_seq());
        lemma_top_flat(l1, a.issued_seq());
        assert forall|l: int, i: int| at(l1, l, i) implies tab_sound(c1, #[trigger] l1[l][i], d)
            && cached_ok(b.images(), c1, l1[l][i]) && l1[l][i].max_seq <= a.issued_seq() by {
            let u = l1[l][i];
            if out is Some && u == out->0 {
                assert forall|x: u64| !#[trigger] b.images().dom().contains((u.id, x)) by {
                    if b.images().dom().contains((u.id, x)) {
                        assert(a.images().dom().contains((u.id, x)));
                        assert(live_id(levels, u.id));
                        let (m, y) = choose|m: int, y: int|
                            at(levels, m, y) && (#[trigger] levels[m][y]).id == u.id;
                        assert(issued(levels[m][y].id, id));
                    }
                }
            } else {
                assert(ls[l].contains(u));
                let k = choose|k: int| 0 <= k < ls[l].len() && ls[l][k] == u;
                assert(at(ls, l, k));
                assert(levels[l].contains(ls[l][k]));
                let y = choose|y: int| 0 <= y < levels[l].len() && levels[l][y] == u;
                assert(at(levels, l, y));
                assert(tab_sound(c1, levels[l][y], d) && cached_ok(a.images(), c1, levels[l][y]));
                assert forall|x: u64| #[trigger] b.images().dom().contains((u.id, x)) implies
                    u.first_block <= x < u.first_block + u.block_count && b.images()[(u.id, x)]
                    == c1[x] by {
                    assert(a.images().dom().contains((u.id, x)));
                }
            }
        }
        assert forall|k: (u32, u64)| #[trigger] b.images().dom().contains(k) implies live_id(
            l1,
            k.0,
        ) by {
            assert(a.images().dom().contains(k));
            assert(live_id(levels, k.0));
            let (m, y) = choose|m: int, y: int|
                at(levels, m, y) && (#[trigger] levels[m][y]).id == k.0;
            let z = lemma_aside_at(levels, j, out, m, y, id);
            assert(at(l1, m, z) && l1[m][z].id == k.0);
        }
    }
}

} // verus!

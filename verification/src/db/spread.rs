//! Levels 1 and deeper hold pairwise disjoint key ranges, and every
//! operation keeps them so.

use vstd::prelude::*;

use super::archive::{dropped, SealedTable};
use super::compacted::{
    lemma_job_parts, lemma_section_bounds, lemma_tab_streams, lemma_without_is,
};
use super::compaction::{
    heads, job_data, job_rdels, job_sections, job_streams, joined_by, lemma_source, without, JobV,
};
use super::flush::{first_point, last_point, lemma_greater, lemma_lesser};
use super::invariants::{clean_before, earlier, overlaps_later, table_fault, taken_before};
use super::place::{at, housed, lemma_top_flat, occupied, sits};
use super::room::next_free;
use super::select::{in_job, lemma_picked_closes, pick_overlapping, picked, widened, PickV};
use super::view::{is_run_of, rdel_inside, rec_inside, tab_rdels, tab_run, tab_sound};
use super::{ids_ok, Db};
use crate::bytes::{lemma_lex_le_le, lemma_lex_lt_le, lex_le};
use crate::compact::bounds::{greater, greatest_end, least_start, lesser, overlap};
use crate::compact::cursor::{rec_within, recs_within};
use crate::compact::rdel_merge::{lemma_output_in, rdel_in, rdels_within, ShadowV};
use crate::compact::sift::{
    among, held, law_merge_order, law_sift_keeps_order, settled, settled_from, zipped,
};
use crate::device::BlockDevice;
use crate::error::Error;
use crate::manifest::data_blocks_of;
use crate::manifest_format::TabV;
use crate::memtable::{key_sorted, Rec};
use crate::sstable::format::RdelV;
use crate::sstable::writer::WriterV;

verus! {

/// The two tables have no key range in common.
pub open spec fn disjoint(t: TabV, u: TabV) -> bool {
    !overlap(t.first_key, t.last_key, u.first_key, u.last_key)
}

/// The tables' ranges run forward and are pairwise disjoint.
pub open spec fn spread_level(ts: Seq<TabV>) -> bool {
    &&& forall|i: int| 0 <= i < ts.len() ==> lex_le((#[trigger] ts[i]).first_key, ts[i].last_key)
    &&& forall|i: int, j: int|
        0 <= i < ts.len() && 0 <= j < ts.len() && i != j ==> disjoint(
            #[trigger] ts[i],
            #[trigger] ts[j],
        )
}

/// Levels 1 and deeper are spread.
pub open spec fn spread(levels: Seq<Seq<TabV>>) -> bool {
    forall|l: int| 1 <= l < levels.len() ==> spread_level(#[trigger] levels[l])
}

/// The range takes in every input, and overlaps no other table of the
/// target level.
pub open spec fn clear_of(
    levels: Seq<Seq<TabV>>,
    j: JobV,
    lo: Seq<u8>,
    hi: Seq<u8>,
) -> bool {
    &&& forall|x: int|
        0 <= x < j.inputs.len() ==> lex_le(lo, (#[trigger] j.inputs[x]).1.first_key) && lex_le(
            j.inputs[x].1.last_key,
            hi,
        )
    &&& forall|i: int|
        0 <= i < levels[j.target].len() && !in_job(j.inputs, (#[trigger] levels[j.target][i]).id)
            ==> !overlap(lo, hi, levels[j.target][i].first_key, levels[j.target][i].last_key)
}

/// The job's inputs have the target level to themselves over their range.
pub open spec fn job_clear(levels: Seq<Seq<TabV>>, j: JobV) -> bool {
    exists|lo: Seq<u8>, hi: Seq<u8>| #[trigger] clear_of(levels, j, lo, hi)
}

/// A table apart from two overlapping ranges is apart from their union.
proof fn lemma_hull(q: PickV, t: TabV, x: TabV)
    requires
        overlap(q.first, q.last, t.first_key, t.last_key),
        !overlap(q.first, q.last, x.first_key, x.last_key),
        disjoint(t, x),
        lex_le(x.first_key, x.last_key),
    ensures
        !overlap(widened(q, t).first, widened(q, t).last, x.first_key, x.last_key),
{
    let w = widened(q, t);
    if overlap(w.first, w.last, x.first_key, x.last_key) {
        if w.first == q.first && w.last == t.last_key {
            // last of q < first of x <= last of x < first of t <= last of q
            if lex_le(q.first, x.last_key) && lex_le(x.first_key, t.last_key) {
                lemma_lex_lt_le(x.last_key, t.first_key, q.last);
                crate::bytes::lemma_lex_transitive(x.last_key, q.last, x.first_key);
            }
        }
        if w.first == t.first_key && w.last == q.last {
            if lex_le(t.first_key, x.last_key) && lex_le(x.first_key, q.last) {
                lemma_lex_lt_le(x.last_key, q.first, t.last_key);
                crate::bytes::lemma_lex_transitive(x.last_key, t.last_key, x.first_key);
            }
        }
    }
}

/// Every target table that overlaps the picked range was picked.
proof fn lemma_pick_clear<E>(p: PickV, tgt: int, ts: Seq<TabV>)
    requires
        spread_level(ts),
    ensures
        pick_overlapping::<E>(p, tgt, ts) matches Ok(q) ==> (forall|x: int|
            0 <= x < ts.len() && overlap(
                q.first,
                q.last,
                (#[trigger] ts[x]).first_key,
                ts[x].last_key,
            ) ==> in_job(q.inputs, ts[x].id)),
    decreases ts.len(),
{
    if ts.len() > 0 && pick_overlapping::<E>(p, tgt, ts) is Ok {
        let d = ts.drop_last();
        let n = ts.len() - 1;
        let t = ts.last();
        let q = pick_overlapping::<E>(p, tgt, ts)->Ok_0;
        let q0 = pick_overlapping::<E>(p, tgt, d)->Ok_0;
        assert forall|i: int, j: int|
            0 <= i < d.len() && 0 <= j < d.len() && i != j implies disjoint(
            #[trigger] d[i],
            #[trigger] d[j],
        ) by {
            assert(disjoint(ts[i], ts[j]));
        }
        assert forall|i: int| 0 <= i < d.len() implies lex_le(
            (#[trigger] d[i]).first_key,
            d[i].last_key,
        ) by {
            assert(ts[i] == d[i]);
        }
        lemma_pick_clear::<E>(p, tgt, d);
        assert forall|x: int|
            0 <= x < ts.len() && overlap(
                q.first,
                q.last,
                (#[trigger] ts[x]).first_key,
                ts[x].last_key,
            ) implies in_job(q.inputs, ts[x].id) by {
            if overlap(q0.first, q0.last, t.first_key, t.last_key) {
                assert(q.inputs.last().1 == t);
                if x < n {
                    assert(d[x] == ts[x]);
                    if overlap(q0.first, q0.last, ts[x].first_key, ts[x].last_key) {
                        let k = choose|k: int|
                            0 <= k < q0.inputs.len() && (#[trigger] q0.inputs[k]).1.id == ts[x].id;
                        assert(q.inputs[k] == q0.inputs[k]);
                    } else {
                        assert(disjoint(ts[n], ts[x]));
                        lemma_hull(q0, t, ts[x]);
                    }
                }
            } else if x < n {
                assert(d[x] == ts[x]);
            }
        }
    }
}

/// The first start lies in the range that every start lies in.
proof fn lemma_starts_in(rs: Seq<RdelV>, lo: Seq<u8>, hi: Seq<u8>)
    requires
        rs.len() > 0,
        forall|i: int| 0 <= i < rs.len() ==> rdel_in(lo, hi, #[trigger] rs[i]),
    ensures
        lex_le(lo, least_start(rs)),
        lex_le(greatest_end(rs), hi),
    decreases rs.len(),
{
    let d = rs.drop_last();
    assert(rdel_in(lo, hi, rs[rs.len() - 1]));
    if d.len() > 0 {
        assert forall|i: int| 0 <= i < d.len() implies rdel_in(lo, hi, #[trigger] d[i]) by {
            assert(d[i] == rs[i]);
        }
        lemma_starts_in(d, lo, hi);
    }
}

/// Replacing inputs by an output within their range keeps levels spread.
proof fn lemma_compacted_spread(
    levels: Seq<Seq<TabV>>,
    j: JobV,
    out: Option<TabV>,
    next_id: u32,
    lo: Seq<u8>,
    hi: Seq<u8>,
)
    requires
        ids_ok(levels, next_id),
        next_id < u32::MAX,
        super::compaction::inputs_live(levels, j.inputs),
        super::compaction::inputs_once(j.inputs),
        spread(levels),
        clear_of(levels, j, lo, hi),
        1 <= j.target < levels.len(),
        out matches Some(t) ==> lex_le(lo, t.first_key) && lex_le(t.last_key, hi) && lex_le(
            t.first_key,
            t.last_key,
        ),
    ensures
        spread(super::step::compacted(levels, j, out)),
{
    let ls = without(levels, j.inputs);
    lemma_without_is(levels, j.inputs, next_id);
    assert forall|l: int| 1 <= l < ls.len() implies spread_level(#[trigger] ls[l]) by {
        assert(spread_level(levels[l]));
        assert forall|i: int| 0 <= i < ls[l].len() implies lex_le(
            (#[trigger] ls[l][i]).first_key,
            ls[l][i].last_key,
        ) by {
            assert(at(ls, l, i));
            assert(levels[l].contains(ls[l][i]));
        }
        assert forall|i: int, k: int|
            0 <= i < ls[l].len() && 0 <= k < ls[l].len() && i != k implies disjoint(
            #[trigger] ls[l][i],
            #[trigger] ls[l][k],
        ) by {
            assert(at(ls, l, i) && at(ls, l, k));
            assert(levels[l].contains(ls[l][i]));
            assert(levels[l].contains(ls[l][k]));
            let x = choose|x: int| 0 <= x < levels[l].len() && levels[l][x] == ls[l][i];
            let y = choose|y: int| 0 <= y < levels[l].len() && levels[l][y] == ls[l][k];
            if x == y {
                assert(ls[l][i].id == ls[l][k].id);
            }
        }
    }
    match out {
        None => {},
        Some(t) => {
            let g = j.target;
            let p = crate::manifest::lead_below(ls[g], t.first_key);
            crate::manifest::lemma_lead_below(ls[g], t.first_key);
            let ns = joined_by(ls, g, t);
            assert(spread_level(ls[g]));
            assert forall|i: int| 0 <= i < ls[g].len() implies disjoint(t, #[trigger] ls[g][i])
                && disjoint(ls[g][i], t) by {
                let u = ls[g][i];
                assert(at(ls, g, i));
                assert(levels[g].contains(u));
                let x = choose|x: int| 0 <= x < levels[g].len() && levels[g][x] == u;
                assert(!in_job(j.inputs, levels[g][x].id));
                lemma_apart_inside(t, u, lo, hi);
            }
            assert forall|l: int| 1 <= l < ns.len() implies spread_level(#[trigger] ns[l]) by {
                if l == g {
                    let ts = ns[g];
                    assert forall|i: int| 0 <= i < ts.len() implies ts[i] == (if i < p {
                        ls[g][i]
                    } else if i == p {
                        t
                    } else {
                        ls[g][i - 1]
                    }) by {}
                    assert forall|i: int, k: int|
                        0 <= i < ts.len() && 0 <= k < ts.len() && i != k implies disjoint(
                        #[trigger] ts[i],
                        #[trigger] ts[k],
                    ) by {}
                } else {
                    assert(ns[l] == ls[l]);
                }
            }
        },
    }
}

/// A table within a range is apart from what the range is apart from.
proof fn lemma_apart_inside(t: TabV, u: TabV, lo: Seq<u8>, hi: Seq<u8>)
    requires
        lex_le(lo, t.first_key),
        lex_le(t.last_key, hi),
        !overlap(lo, hi, u.first_key, u.last_key),
    ensures
        disjoint(t, u),
        disjoint(u, t),
{
    if lex_le(t.first_key, u.last_key) && lex_le(u.first_key, t.last_key) {
        lemma_lex_le_le(lo, t.first_key, u.last_key);
        lemma_lex_le_le(u.first_key, t.last_key, hi);
    }
}

impl<
    D: BlockDevice,
    const BLOCK: usize,
    const KEY_MAX: usize,
    const VAL_MAX: usize,
    const CAP: usize,
    const ARENA: usize,
    const LEVELS: usize,
    const TABLES: usize,
    const BLOOM_BYTES: usize,
    const CACHE: usize,
> Db<D, BLOCK, KEY_MAX, VAL_MAX, CAP, ARENA, LEVELS, TABLES, BLOOM_BYTES, CACHE> {
    /// Every range tombstone of the job's inputs runs forward.
    pub open spec fn job_forward(&self, j: JobV) -> bool {
        forall|x: int, g: int|
            0 <= x < j.inputs.len() && 0 <= g < tab_rdels(
                self.content(),
                j.inputs[x].1,
                Self::dims(),
            ).len() ==> {
                let r = #[trigger] tab_rdels(self.content(), j.inputs[x].1, Self::dims())[g];
                lex_le(r.start, r.end)
            }
    }

    /// A selected job has the target level to itself over its range.
    pub proof fn law_selection_clears(m: &Self, j: JobV)
        requires
            m.wf(),
            spread(m.man().levels),
            m.selects(j),
            m.man().levels[j.target].len() <= TABLES,
        ensures
            job_clear(m.man().levels, j),
    {
        let levels = m.man().levels;
        let src = m.job_source()->0;
        let p = m.job_pick(src)->Ok_0;
        let ss = heads(levels[src], TABLES as int);
        let ts = heads(levels[src + 1], TABLES as int);
        m.lemma_wf();
        lemma_source(levels, TABLES as int, LEVELS - 1);
        assert(picked::<D::Error>(src, ss, ts) == Ok::<PickV, Error<D::Error>>(p));
        lemma_picked_closes::<D::Error>(src, ss, ts);
        assert(ts =~= levels[src + 1]);
        assert(spread_level(levels[src + 1]));
        m.lemma_picked_clear(src, ss, ts);
        assert(clear_of(levels, j, p.first, p.last));
    }

    /// The picked range is clear.
    proof fn lemma_picked_clear(&self, src: int, ss: Seq<TabV>, ts: Seq<TabV>)
        requires
            spread_level(ts),
        ensures
            picked::<D::Error>(src, ss, ts) matches Ok(p) ==> (forall|x: int|
                0 <= x < ts.len() && overlap(
                    p.first,
                    p.last,
                    (#[trigger] ts[x]).first_key,
                    ts[x].last_key,
                ) ==> in_job(p.inputs, ts[x].id)),
    {
        let p0 = PickV {
            inputs: Seq::empty(),
            n_tgt: 0,
            first: ss[0].first_key,
            last: ss[0].last_key,
        };
        let from_src = if src == 0 {
            super::select::pick_all::<D::Error>(p0, ss)
        } else {
            match super::select::join_check::<D::Error>(p0, ss[0]) {
                Err(e) => Err(e),
                Ok(()) => Ok(super::select::with_input(p0, src, ss[0])),
            }
        };
        if from_src is Ok {
            lemma_pick_clear::<D::Error>(from_src->Ok_0, src + 1, ts);
        }
    }

    /// A commit keeps levels 1 and deeper spread.
    pub proof fn law_compaction_spreads(a: &Self, b: &Self, j: JobV, w: WriterV)
        requires
            a.wf(),
            a.sound(),
            a.job_fits(j),
            a.job_forward(j),
            job_data::<D::Error>(a.content(), j, BLOCK as int, KEY_MAX, VAL_MAX) == Ok::<
                WriterV,
                Error<D::Error>,
            >(w),
            Self::committed(a, b, j, w),
            spread(a.man().levels),
            job_clear(a.man().levels, j),
        ensures
            spread(b.man().levels),
    {
        reveal(Db::tidy);
        let levels = a.man().levels;
        let (lo, hi) = choose|lo: Seq<u8>, hi: Seq<u8>| #[trigger] clear_of(levels, j, lo, hi);
        let out = a.job_result(j, w);
        a.lemma_wf();
        if out is Some {
            Self::lemma_output_inside(a, j, w, lo, hi);
            lemma_compacted_spread(levels, j, out, a.man().next_table_id, lo, hi);
        } else {
            lemma_without_is(levels, j.inputs, a.man().next_table_id);
            Self::lemma_kept_spread(levels, j, a.man().next_table_id);
        }
    }

    /// The levels without a job's inputs stay spread.
    proof fn lemma_kept_spread(levels: Seq<Seq<TabV>>, j: JobV, next_id: u32)
        requires
            ids_ok(levels, next_id),
            super::compaction::inputs_live(levels, j.inputs),
            super::compaction::inputs_once(j.inputs),
            spread(levels),
        ensures
            spread(without(levels, j.inputs)),
    {
        let ls = without(levels, j.inputs);
        lemma_without_is(levels, j.inputs, next_id);
        assert forall|l: int| 1 <= l < ls.len() implies spread_level(#[trigger] ls[l]) by {
            assert(spread_level(levels[l]));
            assert forall|i: int| 0 <= i < ls[l].len() implies lex_le(
                (#[trigger] ls[l][i]).first_key,
                ls[l][i].last_key,
            ) by {
                assert(at(ls, l, i));
                assert(levels[l].contains(ls[l][i]));
            }
            assert forall|i: int, k: int|
                0 <= i < ls[l].len() && 0 <= k < ls[l].len() && i != k implies disjoint(
                #[trigger] ls[l][i],
                #[trigger] ls[l][k],
            ) by {
                assert(at(ls, l, i) && at(ls, l, k));
                assert(levels[l].contains(ls[l][i]));
                assert(levels[l].contains(ls[l][k]));
                let x = choose|x: int| 0 <= x < levels[l].len() && levels[l][x] == ls[l][i];
                let y = choose|y: int| 0 <= y < levels[l].len() && levels[l][y] == ls[l][k];
                if x == y {
                    assert(ls[l][i].id == ls[l][k].id);
                }
            }
        }
    }

    /// A job's output lies within the range of its inputs.
    proof fn lemma_output_inside(a: &Self, j: JobV, w: WriterV, lo: Seq<u8>, hi: Seq<u8>)
        requires
            a.wf(),
            a.sound(),
            a.job_fits(j),
            a.job_forward(j),
            job_data::<D::Error>(a.content(), j, BLOCK as int, KEY_MAX, VAL_MAX) == Ok::<
                WriterV,
                Error<D::Error>,
            >(w),
            forall|x: int|
                0 <= x < j.inputs.len() ==> lex_le(lo, (#[trigger] j.inputs[x]).1.first_key)
                    && lex_le(j.inputs[x].1.last_key, hi),
            a.job_result(j, w) is Some,
            rdels_within(job_rdels(a.content(), j, KEY_MAX).rs, KEY_MAX),
        ensures
            ({
                let t = a.job_result(j, w)->0;
                lex_le(lo, t.first_key) && lex_le(t.last_key, hi) && lex_le(
                    t.first_key,
                    t.last_key,
                )
            }),
    {
        let c = a.content();
        let d = Self::dims();
        let levels = a.man().levels;
        let ss = job_streams(c, j, KEY_MAX, VAL_MAX);
        let qs = job_sections(c, j, KEY_MAX);
        let es = zipped(ss).recs;
        let rs = job_rdels(c, j, KEY_MAX).rs;
        let all = w.all();
        a.lemma_wf();
        lemma_job_parts::<D::Error>(c, levels, j, w, d);
        assert forall|i: int| 0 <= i < j.inputs.len() implies (forall|g: int|
            0 <= g < ss[i].recs.len() ==> lex_le(lo, (#[trigger] ss[i].recs[g]).key) && lex_le(
                ss[i].recs[g].key,
                hi,
            )) && (forall|g: int|
            0 <= g < (#[trigger] qs[i]).rs.len() ==> rdel_in(lo, hi, #[trigger] qs[i].rs[g])) by {
            let (l, t) = j.inputs[i];
            assert(levels[l].contains(t));
            let k = choose|k: int| 0 <= k < levels[l].len() && levels[l][k] == t;
            assert(at(levels, l, k));
            assert(tab_sound(c, levels[l][k], d));
            lemma_tab_streams(c, t, d);
            let run = tab_run(c, t, d);
            assert(is_run_of(run, c, t, d));
            assert forall|g: int| 0 <= g < ss[i].recs.len() implies lex_le(
                lo,
                (#[trigger] ss[i].recs[g]).key,
            ) && lex_le(ss[i].recs[g].key, hi) by {
                assert(rec_inside(t, run.recs()[g]));
                lemma_lex_le_le(lo, t.first_key, ss[i].recs[g].key);
                lemma_lex_le_le(ss[i].recs[g].key, t.last_key, hi);
            }
            assert forall|g: int| 0 <= g < qs[i].rs.len() implies rdel_in(
                lo,
                hi,
                #[trigger] qs[i].rs[g],
            ) by {
                assert(rdel_inside(t, run.rdels()[g]));
                assert(tab_rdels(c, j.inputs[i].1, d)[g] == qs[i].rs[g]);
                lemma_lex_le_le(lo, t.first_key, qs[i].rs[g].start);
                lemma_lex_le_le(qs[i].rs[g].end, t.last_key, hi);
            }
        }
        law_merge_order(ss);
        law_sift_keeps_order(j.keep, None, es);
        assert forall|g: int| 0 <= g < all.len() implies lex_le(lo, (#[trigger] all[g]).key)
            && lex_le(all[g].key, hi) by {
            assert(settled_from(j.keep, es, all[g]));
            let h = choose|h: int| 0 <= h < es.len() && all[g] == settled(j.keep, #[trigger] es[h]);
            assert(among(ss, es[h]));
            let (x, y) = choose|x: int, y: int|
                held(ss, x, y) && #[trigger] ss[x].recs[y] == es[h];
            assert(qs[x].rs.len() >= 0);
            assert(lex_le(lo, ss[x].recs[y].key));
        }
        assert forall|i: int, g: int|
            0 <= i < qs.len() && 0 <= g < qs[i].rs.len() implies rdel_in(
            lo,
            hi,
            #[trigger] qs[i].rs[g],
        ) by {
            assert(qs[i].rs.len() >= 0);
        }
        lemma_output_in(
            ShadowV { bottommost: j.keep.bottommost, oldest_snapshot: j.keep.oldest_snapshot },
            qs,
            lo,
            hi,
        );
        lemma_bounds_forward(all, rs, lo, hi, KEY_MAX, VAL_MAX);
    }

    /// A sound database with spread levels passes the checks on its tables,
    /// and every used slot holds a table.
    pub proof fn law_sound_is_clean(&self)
        requires
            self.wf(),
            self.sound(),
            spread(self.man().levels),
        ensures
            ({
                let levels = self.man().levels;
                &&& clean_before(
                    self.slot_map(),
                    levels,
                    self.issued_seq(),
                    levels.len() as int,
                    0,
                )
                &&& forall|s: u32| #[trigger]
                    self.slot_map().used(s) ==> taken_before(
                        self.slot_map(),
                        levels,
                        levels.len() as int,
                        0,
                        s,
                    )
            }),
    {
        reveal(Db::tidy);
        let levels = self.man().levels;
        let slots = self.slot_map();
        let d = Self::dims();
        self.lemma_wf();
        lemma_top_flat(levels, self.issued_seq());
        assert forall|l: int, i: int|
            at(levels, l, i) && earlier(l, i, levels.len() as int, 0) implies #[trigger] table_fault(
            slots,
            levels,
            self.issued_seq(),
            l,
            i,
        ) is None by {
            let t = levels[l][i];
            assert(housed(slots, levels[l][i]));
            let u = choose|u: u32| #[trigger] sits(slots, t, u) && slots.used(u);
            let s = choose|s: u32| sits(slots, t, s);
            assert(sits(slots, t, s));
            slots.law_one_slot(s, u, t.first_block, t.block_count as u64);
            if taken_before(slots, levels, l, i, s) {
                let (m, j) = choose|m: int, j: int|
                    at(levels, m, j) && earlier(m, j, l, i) && #[trigger] sits(
                        slots,
                        levels[m][j],
                        s,
                    );
                assert(sits(slots, levels[l][i], s));
            }
            assert(tab_sound(self.content(), levels[l][i], d));
            let run = tab_run(self.content(), t, d);
            assert(is_run_of(run, self.content(), t, d));
            assert(data_blocks_of(t) is Some);
            if t.entry_count > 0 {
                assert(rec_inside(t, run.recs()[0]));
            }
            if l >= 1 && overlaps_later(levels[l], i) {
                assert(spread_level(levels[l]));
                let k = choose|k: int|
                    i < k < levels[l].len() && overlap(
                        levels[l][i].first_key,
                        levels[l][i].last_key,
                        (#[trigger] levels[l][k]).first_key,
                        levels[l][k].last_key,
                    );
                assert(disjoint(levels[l][i], levels[l][k]));
            }
        }
        assert forall|s: u32| #[trigger] slots.used(s) implies taken_before(
            slots,
            levels,
            levels.len() as int,
            0,
            s,
        ) by {
            assert(occupied(slots, levels, s));
            let (l, i) = choose|l: int, i: int|
                at(levels, l, i) && #[trigger] sits(slots, levels[l][i], s);
            assert(earlier(l, i, levels.len() as int, 0));
            assert(sits(slots, levels[l][i], s));
        }
    }

    /// Archiving a table keeps levels 1 and deeper spread.
    pub proof fn law_archive_spreads(
        a: &Self,
        b: &Self,
        level: int,
        i: int,
        r: Result<bool, Error<D::Error>>,
    )
        requires
            at(a.man().levels, level, i),
            Self::archived(a, b, level, i, r),
            spread(a.man().levels),
        ensures
            spread(b.man().levels),
    {
        let levels = a.man().levels;
        let ls = dropped(levels, level, i);
        assert forall|l: int| 1 <= l < ls.len() implies spread_level(#[trigger] ls[l]) by {
            assert(spread_level(levels[l]));
            if l == level {
                let ts = levels[l].remove(i);
                assert forall|x: int, y: int|
                    0 <= x < ts.len() && 0 <= y < ts.len() && x != y implies disjoint(
                    #[trigger] ts[x],
                    #[trigger] ts[y],
                ) by {
                    let p = if x < i {
                        x
                    } else {
                        x + 1
                    };
                    let q = if y < i {
                        y
                    } else {
                        y + 1
                    };
                    assert(disjoint(levels[l][p], levels[l][q]));
                }
            }
        }
    }

    /// A flush adds to level 0 alone: levels 1 and deeper stay spread.
    pub proof fn law_flush_spreads(a: &Self, b: &Self, r: Result<(), Error<D::Error>>)
        requires
            a.wf(),
            Self::flushed(a, b, r),
            spread(a.man().levels),
        ensures
            spread(b.man().levels),
    {
        let l0 = a.man().levels;
        let l1 = b.man().levels;
        a.lemma_wf();
        if b.man() != a.man() && a.mem().len() > 0 {
            let s = choose|s: u32| #[trigger]
                next_free(a.slot_map(), s) && Self::flushed_into(a, b, s, r);
            let lo = a.slot_map().base_of(s as int);
            assert(b.man() == a.flush_man(lo as u64));
            assert(l1.len() == l0.len());
        }
        assert forall|l: int| 1 <= l < l1.len() implies spread_level(#[trigger] l1[l]) by {
            assert(l1[l] == l0[l]);
        }
    }

    /// An ingest adds to level 0 alone: levels 1 and deeper stay spread.
    pub proof fn law_ingest_spreads(
        a: &Self,
        b: &Self,
        t: SealedTable<KEY_MAX>,
        src: Map<u64, Seq<u8>>,
        src_base: u64,
        src_block: usize,
        r: Result<bool, Error<D::Error>>,
    )
        requires
            a.wf(),
            Self::ingested(a, b, t, src, src_base, src_block, r),
            spread(a.man().levels),
        ensures
            spread(b.man().levels),
    {
        let l0 = a.man().levels;
        let l1 = b.man().levels;
        a.lemma_wf();
        if b.man() != a.man() {
            let s = choose|s: u32| #[trigger]
                next_free(a.slot_map(), s) && Self::ingested_into(a, b, t, src, src_base, s, r);
            let base = a.slot_map().base_of(s as int) as u64;
            assert(b.man() == a.ingest_man(t, base));
        }
        assert forall|l: int| 1 <= l < l1.len() implies spread_level(#[trigger] l1[l]) by {
            assert(l1[l] == l0[l]);
        }
    }
}

/// Bounds folded over points and tombstones that run forward run forward.
proof fn lemma_bounds_forward(
    all: Seq<Rec>,
    rs: Seq<RdelV>,
    lo: Seq<u8>,
    hi: Seq<u8>,
    key_max: usize,
    val_max: usize,
)
    requires
        all.len() > 0 || rs.len() > 0,
        key_sorted(all),
        recs_within(all, key_max, val_max),
        rdels_within(rs, key_max),
        forall|g: int|
            0 <= g < all.len() ==> lex_le(lo, (#[trigger] all[g]).key) && lex_le(all[g].key, hi),
        forall|i: int| 0 <= i < rs.len() ==> rdel_in(lo, hi, #[trigger] rs[i]),
    ensures
        ({
            let f = lesser(first_point(all), least_start(rs));
            let l = greater(last_point(all), greatest_end(rs));
            lex_le(lo, f) && lex_le(l, hi) && lex_le(f, l)
        }),
{
    let f = lesser(first_point(all), least_start(rs));
    let l = greater(last_point(all), greatest_end(rs));
    let n = all.len() - 1;
    lemma_lesser(first_point(all), least_start(rs));
    lemma_greater(last_point(all), greatest_end(rs));
    if rs.len() > 0 {
        lemma_starts_in(rs, lo, hi);
        lemma_section_bounds(rs, 0, key_max);
    }
    if all.len() > 0 {
        assert(rec_within(all[0], key_max, val_max));
        assert(rec_within(all[n], key_max, val_max));
        assert(lex_le(lo, all[0].key));
        assert(lex_le(all[n].key, hi));
        assert(lex_le(all[0].key, all[n].key));
        lemma_lex_le_le(f, all[0].key, all[n].key);
        lemma_lex_le_le(f, all[n].key, l);
    } else {
        assert(rdel_in(lo, hi, rs[0]));
        lemma_lex_le_le(f, rs[0].start, rs[0].end);
        lemma_lex_le_le(f, rs[0].end, l);
    }
}

} // verus!

//! Every version has one place: a sequence is given out once, and what
//! flushes and compactions move they move whole.

use vstd::prelude::*;

use super::archive::SealedTable;
use super::compact_reads::watched;
use super::compacted::{lemma_job_parts, lemma_joined_ids, lemma_tab_streams, lemma_without_is};
use super::compaction::{job_data, job_of, job_streams, without, JobV};
use super::flush::{flush_tab, lemma_points_from};
use super::place::{at, lemma_tables_kept, lemma_tables_kept_both, lemma_top_flat};
use super::room::next_free;
use super::scan::{holds, numbered};
use super::select::in_job;
use super::view::{is_run_of, lemma_tab_kept, rec_inside, tab_recs, tab_run, tab_sound};
use super::write::{applied, batch_recs};
use super::{opened_as, Db, OpenReport};
use crate::batch::BatchOpV;
use crate::compact::merge::{Compaction, Progress};
use crate::compact::sift::{
    among, drops, held, keep_wf, law_merge_order, law_sift_keeps_order, settled, settled_from,
    zipped,
};
use crate::device::{same_blocks, same_outside, BlockDevice};
use crate::error::Error;
use crate::memtable::{with_rec, Rec};
use crate::sstable::capacity::points_of;
use crate::sstable::writer::WriterV;
use crate::wal::{entry_of, WalRec};

verus! {

/// Every op was accepted into a batch.
pub open spec fn all_queued_ok(ops: Seq<BatchOpV>) -> bool {
    forall|i: int| 0 <= i < ops.len() ==> super::write::queued_ok(#[trigger] ops[i])
}

/// What is held of a memtable after writes was held before, or was written.
proof fn lemma_applied(mem: Seq<Rec>, rs: Seq<WalRec>, e: Rec)
    requires
        applied(mem, rs).contains(e),
    ensures
        mem.contains(e) || exists|i: int| 0 <= i < rs.len() && e == entry_of(#[trigger] rs[i]),
    decreases rs.len(),
{
    if rs.len() > 0 {
        let d = rs.drop_last();
        let n = rs.len() - 1;
        let v = applied(mem, d);
        lemma_with_rec(v, entry_of(rs.last()), e);
        if v.contains(e) {
            lemma_applied(mem, d, e);
            if !mem.contains(e) {
                let i = choose|i: int| 0 <= i < d.len() && e == entry_of(#[trigger] d[i]);
                assert(rs[i] == d[i]);
            }
        } else {
            assert(e == entry_of(rs[n]));
        }
    }
}

proof fn lemma_lower_within(v: Seq<Rec>, k: Seq<u8>)
    ensures
        0 <= crate::memtable::lower(v, k) <= v.len(),
    decreases v.len(),
{
    if v.len() > 0 {
        lemma_lower_within(v.skip(1), k);
    }
}

proof fn lemma_with_rec(v: Seq<Rec>, r: Rec, e: Rec)
    requires
        with_rec(v, r).contains(e),
    ensures
        v.contains(e) || e == r,
{
    let p = crate::memtable::lower(v, r.key);
    lemma_lower_within(v, r.key);
    let i = with_rec(v, r).index_of(e);
    if i < p {
        assert(v[i] == e);
    } else if i > p {
        assert(v[i - 1] == e);
    }
}

impl<
    D: BlockDevice,
    const BLOCK: usize,
    const KEY_MAX: usize,
    const VAL_MAX: usize,
    const CAP: usize,
    const ARENA: usize,
    const LEVELS: usize,
    const TABLES: usize,
    const BLOOM_BYTES: usize,
    const CACHE: usize,
> Db<D, BLOCK, KEY_MAX, VAL_MAX, CAP, ARENA, LEVELS, TABLES, BLOOM_BYTES, CACHE> {
    /// Source `src` holds version `e`: the memtable is no table, a table is
    /// known by its id.
    pub open spec fn source_has(&self, src: Option<u32>, e: Rec) -> bool {
        match src {
            None => self.mem_has(e),
            Some(id) => exists|l: int, i: int| #[trigger]
                self.table_has(l, i, e) && self.man().levels[l][i].id == id,
        }
    }

    /// Each version has one place, and its sequence was given out.
    pub open spec fn traced(&self) -> bool {
        &&& forall|s: Option<u32>, t: Option<u32>, e: Rec, f: Rec|
            #![trigger self.source_has(s, e), self.source_has(t, f)]
            self.source_has(s, e) && self.source_has(t, f) && e.key == f.key && e.seq == f.seq ==> s
                == t && e == f
        &&& forall|s: Option<u32>, e: Rec| #[trigger] self.source_has(s, e) ==> e.seq >= 1
    }

    /// The live tables' blocks are the same on `b`.
    spec fn blocks_kept(a: &Self, b: &Self) -> bool {
        forall|l: int, i: int|
            at(a.man().levels, l, i) ==> same_blocks(
                a.content(),
                b.content(),
                (#[trigger] a.man().levels[l][i]).first_block as int,
                a.man().levels[l][i].first_block + a.man().levels[l][i].block_count,
            )
    }

    /// Every version of `b` is held by the same source of `a`, or is one of
    /// `news` in the memtable.
    spec fn grown(a: &Self, b: &Self, news: Set<Rec>) -> bool {
        forall|s: Option<u32>, e: Rec| #[trigger]
            b.source_has(s, e) ==> a.source_has(s, e) || (s is None && news.contains(e))
    }

    proof fn lemma_table_source(&self, l: int, i: int, e: Rec)
        requires
            self.table_has(l, i, e),
        ensures
            self.source_has(Some(self.man().levels[l][i].id), e),
    {
    }

    /// A version's sequence was given out.
    proof fn lemma_source_seq(&self, s: Option<u32>, e: Rec)
        requires
            self.wf(),
            self.sound(),
            self.source_has(s, e),
        ensures
            e.seq <= self.issued_seq(),
            s matches Some(id) ==> super::live_id(self.man().levels, id),
    {
        let levels = self.man().levels;
        self.lemma_wf();
        match s {
            None => {
                crate::memtable::lemma_top_bound(self.mem(), self.mem().index_of(e));
            },
            Some(id) => {
                let (l, i) = choose|l: int, i: int| #[trigger]
                    self.table_has(l, i, e) && levels[l][i].id == id;
                assert(tab_sound(self.content(), levels[l][i], Self::dims()));
                let run = tab_run(self.content(), levels[l][i], Self::dims());
                assert(is_run_of(run, self.content(), levels[l][i], Self::dims()));
                assert(rec_inside(levels[l][i], run.recs()[run.recs().index_of(e)]));
                lemma_top_flat(levels, self.issued_seq());
            },
        }
    }

    /// A table of `b` that `a` has too, its blocks kept, holds the same.
    proof fn lemma_table_from(a: &Self, b: &Self, l: int, i: int, m: int, x: int, e: Rec)
        requires
            a.sound(),
            Self::blocks_kept(a, b),
            b.table_has(l, i, e),
            at(a.man().levels, m, x),
            a.man().levels[m][x] == b.man().levels[l][i],
        ensures
            a.table_has(m, x, e),
            a.source_has(Some(b.man().levels[l][i].id), e),
    {
        assert(tab_sound(a.content(), a.man().levels[m][x], Self::dims()));
        lemma_tab_kept(a.content(), b.content(), a.man().levels[m][x], Self::dims());
        a.lemma_table_source(m, x, e);
    }

    /// New versions of their own sequences keep the others traced.
    proof fn lemma_grown(a: &Self, b: &Self, news: Set<Rec>)
        requires
            a.wf(),
            a.sound(),
            a.traced(),
            Self::grown(a, b, news),
            forall|e: Rec| #[trigger] news.contains(e) ==> e.seq > a.issued_seq(),
            forall|e: Rec, f: Rec| #[trigger]
                news.contains(e) && #[trigger] news.contains(f) && e.seq == f.seq ==> e == f,
        ensures
            b.traced(),
    {
        assert forall|s: Option<u32>, t: Option<u32>, e: Rec, f: Rec|
            #![trigger b.source_has(s, e), b.source_has(t, f)]
            b.source_has(s, e) && b.source_has(t, f) && e.key == f.key && e.seq
                == f.seq implies s == t && e == f by {
            if a.source_has(s, e) {
                a.lemma_source_seq(s, e);
            }
            if a.source_has(t, f) {
                a.lemma_source_seq(t, f);
            }
        }
        assert forall|s: Option<u32>, e: Rec| #[trigger] b.source_has(s, e) implies e.seq >= 1 by {
            if !a.source_has(s, e) {
                assert(news.contains(e));
            }
        }
    }

    /// The same tables with the memtable grown.
    proof fn lemma_mem_grown(a: &Self, b: &Self, news: Set<Rec>)
        requires
            a.sound(),
            b.man().levels == a.man().levels,
            Self::blocks_kept(a, b),
            forall|e: Rec| #[trigger] b.mem_has(e) ==> a.mem_has(e) || news.contains(e),
        ensures
            Self::grown(a, b, news),
    {
        assert forall|s: Option<u32>, e: Rec| #[trigger] b.source_has(s, e) implies a.source_has(
            s,
            e,
        ) || (s is None && news.contains(e)) by {
            if s is Some {
                let (l, i) = choose|l: int, i: int| #[trigger]
                    b.table_has(l, i, e) && b.man().levels[l][i].id == s->0;
                Self::lemma_table_from(a, b, l, i, l, i, e);
            }
        }
    }

    /// A change to the next log block leaves the tables.
    proof fn lemma_log_kept_blocks(a: &Self, b: &Self)
        requires
            a.wf(),
            a.sound(),
            a.wal_next() < a.config().wal_end,
            same_outside(a.content(), b.content(), a.wal_next() as int, a.wal_next() + 1),
        ensures
            Self::blocks_kept(a, b),
    {
        reveal(Db::tidy);
        a.lemma_wf();
        lemma_tables_kept(
            a.slot_map(),
            a.images(),
            a.content(),
            b.content(),
            a.man().levels,
            Self::dims(),
            a.wal_next() as int,
            a.wal_next() + 1,
        );
    }

    /// A change to a free slot and the next manifest copy leaves the tables.
    proof fn lemma_slot_kept_blocks(a: &Self, b: &Self, s: u32)
        requires
            a.wf(),
            a.sound(),
            s < a.slot_map().slot_count(),
            !a.slot_map().used(s),
            super::flush::touches_only(
                a.content(),
                b.content(),
                a.slot_map().base_of(s as int),
                a.slot_map().base_of(s + 1),
                a.copy_at(),
                a.copy_at() + Self::stride(),
            ),
        ensures
            Self::blocks_kept(a, b),
    {
        reveal(Db::tidy);
        a.lemma_wf();
        a.lemma_copy_at();
        lemma_tables_kept_both(
            a.slot_map(),
            a.images(),
            a.content(),
            b.content(),
            a.man().levels,
            Self::dims(),
            s,
            a.copy_at(),
            a.copy_at() + Self::stride(),
        );
    }

    /// A change to the next manifest copy leaves the tables.
    proof fn lemma_copy_kept_blocks(a: &Self, b: &Self)
        requires
            a.wf(),
            a.sound(),
            same_outside(
                a.content(),
                b.content(),
                a.copy_at(),
                a.copy_at() + Self::stride(),
            ),
        ensures
            Self::blocks_kept(a, b),
    {
        reveal(Db::tidy);
        a.lemma_wf();
        a.lemma_copy_at();
        lemma_tables_kept(
            a.slot_map(),
            a.images(),
            a.content(),
            b.content(),
            a.man().levels,
            Self::dims(),
            a.copy_at(),
            a.copy_at() + Self::stride(),
        );
    }

    /// In a traced database no two different versions of a key share a
    /// sequence, and sequences start at one.
    pub proof fn law_traced_agrees(&self)
        requires
            self.traced(),
        ensures
            self.versions_agree(),
            numbered(self.whole(), Self::dims()),
    {
        assert forall|e: Rec| #[trigger] self.has_version(e) implies exists|s: Option<u32>|
            #[trigger] self.source_has(s, e) by {
            if self.mem_has(e) {
                assert(self.source_has(None, e));
            } else {
                let (l, i) = choose|l: int, i: int| #[trigger] self.table_has(l, i, e);
                self.lemma_table_source(l, i, e);
            }
        }
        assert forall|e: Rec| #[trigger] holds(self.whole(), Self::dims(), e) implies e.seq
            >= 1 by {
            if self.mem_has(e) {
                assert(self.source_has(None, e));
            } else {
                let (l, i) = choose|l: int, i: int|
                    at(self.man().levels, l, i) && tab_recs(
                        self.content(),
                        #[trigger] self.man().levels[l][i],
                        Self::dims(),
                    ).contains(e);
                assert(self.table_has(l, i, e));
                self.lemma_table_source(l, i, e);
            }
        }
        assert forall|e: Rec, f: Rec|
            #![trigger self.has_version(e), self.has_version(f)]
            self.has_version(e) && self.has_version(f) && e.key == f.key && e.seq
                == f.seq implies e == f by {
            let s = choose|s: Option<u32>| #[trigger] self.source_has(s, e);
            let t = choose|t: Option<u32>| #[trigger] self.source_has(t, f);
        }
    }

    /// An empty database is traced.
    pub(super) proof fn lemma_empty_traced(b: &Self)
        requires
            b.mem() == Seq::<Rec>::empty(),
            forall|l: int, i: int| !at(b.man().levels, l, i),
        ensures
            b.traced(),
    {
        assert forall|s: Option<u32>, e: Rec| !#[trigger] b.source_has(s, e) by {}
    }

    /// A write, whatever comes of it, keeps a database traced.
    pub proof fn law_write_traced(
        a: &Self,
        b: &Self,
        rec0: WalRec,
        r: Result<u64, Error<D::Error>>,
    )
        requires
            a.wf(),
            a.sound(),
            a.traced(),
            Self::wrote(a, b, rec0, r),
        ensures
            b.traced(),
    {
        let rec = WalRec { seq: (a.issued_seq() + 1) as u64, ..rec0 };
        let news = if r is Ok {
            set![entry_of(rec)]
        } else {
            Set::<Rec>::empty()
        };
        assert(Self::blocks_kept(a, b)) by {
            if b.content() != a.content() {
                Self::lemma_log_kept_blocks(a, b);
            }
        }
        assert forall|e: Rec| #[trigger] b.mem_has(e) implies a.mem_has(e) || news.contains(e) by {
            if r is Ok {
                lemma_with_rec(a.mem(), entry_of(rec), e);
            }
        }
        Self::lemma_mem_grown(a, b, news);
        Self::lemma_grown(a, b, news);
    }

    /// A batch, whatever comes of it, keeps a database traced.
    pub proof fn law_batch_traced(
        a: &Self,
        b: &Self,
        ops: Seq<BatchOpV>,
        r: Result<u64, Error<D::Error>>,
    )
        requires
            a.wf(),
            a.sound(),
            a.traced(),
            Self::wrote_batch(a, b, ops, r),
        ensures
            b.traced(),
    {
        let base = (a.issued_seq() + 1) as u64;
        let rs = batch_recs(ops, base);
        let grows = b.mem() != a.mem();
        let news = if grows {
            Set::new(|e: Rec| exists|i: int| 0 <= i < rs.len() && e == entry_of(#[trigger] rs[i]))
        } else {
            Set::<Rec>::empty()
        };
        assert(Self::blocks_kept(a, b)) by {
            if b.content() != a.content() {
                Self::lemma_log_kept_blocks(a, b);
            }
        }
        assert forall|e: Rec| #[trigger] b.mem_has(e) implies a.mem_has(e) || news.contains(e) by {
            if grows {
                lemma_applied(a.mem(), rs, e);
            }
        }
        Self::lemma_mem_grown(a, b, news);
        Self::lemma_grown(a, b, news);
    }

    /// Where each version of `b` comes from in `a`: from one place, which no
    /// other comes from.
    spec fn moved_from(
        a: &Self,
        b: &Self,
        origin: spec_fn(Option<u32>, Rec) -> (Option<u32>, Rec),
    ) -> bool {
        &&& forall|s: Option<u32>, e: Rec| #[trigger]
            b.source_has(s, e) ==> {
                let (t, f) = origin(s, e);
                &&& a.source_has(t, f)
                &&& f.key == e.key
                &&& f.seq == e.seq
            }
        &&& forall|s: Option<u32>, t: Option<u32>, e: Rec, f: Rec|
            #![trigger b.source_has(s, e), b.source_has(t, f)]
            b.source_has(s, e) && b.source_has(t, f) && origin(s, e) == origin(t, f) ==> s == t
                && e == f
    }

    proof fn lemma_moved(
        a: &Self,
        b: &Self,
        origin: spec_fn(Option<u32>, Rec) -> (Option<u32>, Rec),
    )
        requires
            a.traced(),
            Self::moved_from(a, b, origin),
        ensures
            b.traced(),
    {
        assert forall|s: Option<u32>, t: Option<u32>, e: Rec, f: Rec|
            #![trigger b.source_has(s, e), b.source_has(t, f)]
            b.source_has(s, e) && b.source_has(t, f) && e.key == f.key && e.seq
                == f.seq implies s == t && e == f by {
            let (s0, e0) = origin(s, e);
            let (t0, f0) = origin(t, f);
            assert(a.source_has(s0, e0) && a.source_has(t0, f0));
        }
        assert forall|s: Option<u32>, e: Rec| #[trigger] b.source_has(s, e) implies e.seq >= 1 by {
            let (s0, e0) = origin(s, e);
            assert(a.source_has(s0, e0));
        }
    }

    /// A flush, whatever comes of it, keeps a database traced: the new
    /// table takes what the memtable held.
    pub proof fn law_flush_traced(a: &Self, b: &Self, r: Result<(), Error<D::Error>>)
        requires
            a.wf(),
            a.sound(),
            a.traced(),
            Self::flushed(a, b, r),
        ensures
            b.traced(),
    {
        let none = Set::<Rec>::empty();
        let l0 = a.man().levels;
        a.lemma_wf();
        if b.mem() == a.mem() && b.man().levels == l0 {
            assert(Self::blocks_kept(a, b)) by {
                if b.content() != a.content() {
                    if a.mem().len() == 0 {
                        Self::lemma_copy_kept_blocks(a, b);
                    } else {
                        let s = choose|s: u32| #[trigger]
                            next_free(a.slot_map(), s) && Self::flushed_into(a, b, s, r);
                        Self::lemma_slot_kept_blocks(a, b, s);
                    }
                }
            }
            Self::lemma_mem_grown(a, b, none);
            Self::lemma_grown(a, b, none);
        } else {
            let s = choose|s: u32| #[trigger]
                next_free(a.slot_map(), s) && Self::flushed_into(a, b, s, r);
            let base = a.slot_map().base_of(s as int) as u64;
            let id = a.man().next_table_id;
            let t = flush_tab(a.mem(), id, base, BLOCK as int);
            let n = l0[0].len() as int;
            let l1 = b.man().levels;
            Self::lemma_flush_reads(a, b, s);
            assert(Self::blocks_kept(a, b));
            let origin = |src: Option<u32>, e: Rec|
                if src == Some(id) {
                    (None::<u32>, e)
                } else {
                    (src, e)
                };
            reveal(Db::tidy);
            assert forall|src: Option<u32>, e: Rec| #[trigger] b.source_has(src, e) implies ({
                let (t0, f) = origin(src, e);
                &&& a.source_has(t0, f)
                &&& f.key == e.key
                &&& f.seq == e.seq
                &&& src is Some
            }) by {
                if src is None {
                    assert(b.mem().contains(e));
                } else {
                    let (l, i) = choose|l: int, i: int| #[trigger]
                        b.table_has(l, i, e) && l1[l][i].id == src->0;
                    if l == 0 && i == n {
                        assert(l1[l][i] == t);
                        let ps = points_of(a.mem());
                        let g = ps.index_of(e);
                        let x = lemma_points_from(a.mem(), g);
                        assert(a.mem()[x] == e);
                        assert(a.mem_has(e));
                    } else {
                        assert(l1[l][i] == l0[l][i]);
                        assert(at(l0, l, i));
                        assert(super::issued(l0[l][i].id, id));
                        Self::lemma_table_from(a, b, l, i, l, i, e);
                    }
                }
            }
            Self::lemma_moved(a, b, origin);
        }
    }

    /// A version of the output stands in an input, as it was before it
    /// settled.
    proof fn lemma_output_from(a: &Self, j: JobV, w: WriterV, e: Rec) -> (r: (u32, Rec))
        requires
            a.wf(),
            a.sound(),
            a.job_fits(j),
            job_data::<D::Error>(a.content(), j, BLOCK as int, KEY_MAX, VAL_MAX) == Ok::<
                WriterV,
                Error<D::Error>,
            >(w),
            w.all().contains(e),
        ensures
            e == settled(j.keep, r.1),
            in_job(j.inputs, r.0),
            a.source_has(Some(r.0), r.1),
    {
        let c = a.content();
        let d = Self::dims();
        let levels = a.man().levels;
        let ss = job_streams(c, j, KEY_MAX, VAL_MAX);
        let es = zipped(ss).recs;
        lemma_job_parts::<D::Error>(c, levels, j, w, d);
        law_merge_order(ss);
        law_sift_keeps_order(j.keep, None, es);
        let g = w.all().index_of(e);
        assert(settled_from(j.keep, es, w.all()[g]));
        let h = choose|h: int| 0 <= h < es.len() && e == settled(j.keep, #[trigger] es[h]);
        assert(among(ss, es[h]));
        let (x, y) = choose|x: int, y: int| held(ss, x, y) && #[trigger] ss[x].recs[y] == es[h];
        let (l, t) = j.inputs[x];
        assert(levels[l].contains(t));
        let k = choose|k: int| 0 <= k < levels[l].len() && levels[l][k] == t;
        assert(at(levels, l, k));
        assert(tab_sound(c, levels[l][k], d));
        lemma_tab_streams(c, t, d);
        assert(tab_recs(c, levels[l][k], d).contains(es[h]));
        assert(a.table_has(l, k, es[h]));
        a.lemma_table_source(l, k, es[h]);
        assert(j.inputs[x].1.id == t.id);
        (t.id, es[h])
    }

    /// A committed compaction keeps a database traced: its output takes the
    /// places of its inputs.
    pub proof fn law_compaction_traced(a: &Self, b: &Self, j: JobV, w: WriterV)
        requires
            a.wf(),
            a.sound(),
            a.traced(),
            a.job_fits(j),
            job_data::<D::Error>(a.content(), j, BLOCK as int, KEY_MAX, VAL_MAX) == Ok::<
                WriterV,
                Error<D::Error>,
            >(w),
            Self::committed(a, b, j, w),
        ensures
            b.traced(),
    {
        reveal(Db::tidy);
        let levels = a.man().levels;
        let l1 = b.man().levels;
        let id = a.man().next_table_id;
        let ls = without(levels, j.inputs);
        let out = a.job_result(j, w);
        a.lemma_wf();
        lemma_without_is(levels, j.inputs, id);
        if out is Some {
            lemma_joined_ids(ls, j.target, out->0, id);
            Self::lemma_output_is(a, b, j, w);
        }
        Self::lemma_slot_kept_blocks(a, b, j.slot);
        let from = |e: Rec|
            choose|p: (u32, Rec)|
                e == settled(j.keep, p.1) && in_job(j.inputs, p.0) && #[trigger] a.source_has(
                    Some(p.0),
                    p.1,
                );
        let origin = |src: Option<u32>, e: Rec|
            if out is Some && src == Some(id) {
                let p: (u32, Rec) = from(e);
                (Some(p.0), p.1)
            } else {
                (src, e)
            };
        assert forall|src: Option<u32>, e: Rec| #[trigger] b.source_has(src, e) implies ({
            let (t0, f) = origin(src, e);
            &&& a.source_has(t0, f)
            &&& f.key == e.key
            &&& f.seq == e.seq
            &&& out is Some && src == Some(id) ==> {
                &&& t0 matches Some(x) && in_job(j.inputs, x)
                &&& e == settled(j.keep, f)
            }
            &&& !(out is Some && src == Some(id)) ==> (t0 matches Some(x) ==> !in_job(
                j.inputs,
                x,
            ))
        }) by {
            if src is Some {
                let (l, i) = choose|l: int, i: int| #[trigger]
                    b.table_has(l, i, e) && l1[l][i].id == src->0;
                if out == Some(l1[l][i]) {
                    let q = Self::lemma_output_from(a, j, w, e);
                    assert(a.source_has(Some(q.0), q.1));
                    let p: (u32, Rec) = from(e);
                    assert(e == settled(j.keep, p.1) && a.source_has(Some(p.0), p.1));
                } else {
                    assert(ls[l].contains(l1[l][i])) by {
                        if out is None {
                            assert(ls[l][i] == l1[l][i]);
                        }
                    }
                    let y = choose|y: int| 0 <= y < ls[l].len() && ls[l][y] == l1[l][i];
                    assert(at(ls, l, y));
                    assert(levels[l].contains(ls[l][y]));
                    let z = choose|z: int| 0 <= z < levels[l].len() && levels[l][z] == l1[l][i];
                    assert(at(levels, l, z));
                    assert(super::issued(levels[l][z].id, id));
                    Self::lemma_table_from(a, b, l, i, l, z, e);
                }
            }
        }
        Self::lemma_moved(a, b, origin);
    }

    /// An archival, whatever comes of it, keeps a database traced.
    pub proof fn law_archive_traced(
        a: &Self,
        b: &Self,
        level: int,
        i: int,
        r: Result<bool, Error<D::Error>>,
    )
        requires
            a.wf(),
            a.sound(),
            a.traced(),
            at(a.man().levels, level, i),
            Self::archived(a, b, level, i, r),
        ensures
            b.traced(),
    {
        let none = Set::<Rec>::empty();
        let l0 = a.man().levels;
        let l1 = b.man().levels;
        Self::lemma_copy_kept_blocks(a, b);
        assert forall|s: Option<u32>, e: Rec| #[trigger] b.source_has(s, e) implies a.source_has(
            s,
            e,
        ) by {
            if s is Some {
                let (l, x) = choose|l: int, x: int| #[trigger]
                    b.table_has(l, x, e) && l1[l][x].id == s->0;
                let y = if r is Ok && l == level && x >= i {
                    x + 1
                } else {
                    x
                };
                assert(at(l0, l, y) && l0[l][y] == l1[l][x]);
                Self::lemma_table_from(a, b, l, x, l, y, e);
            }
        }
        assert(Self::grown(a, b, none));
        Self::lemma_grown(a, b, none);
    }

    /// Attaching a table keeps a database traced where no version of it
    /// shares a key and a sequence with one held.
    pub proof fn law_ingest_traced(
        a: &Self,
        b: &Self,
        t: SealedTable<KEY_MAX>,
        src: Map<u64, Seq<u8>>,
        src_base: u64,
        s: u32,
    )
        requires
            a.wf(),
            a.sound(),
            a.traced(),
            b.sound(),
            next_free(a.slot_map(), s),
            !super::live_id(a.man().levels, t.id),
            Self::ingested_into(a, b, t, src, src_base, s, Ok::<bool, Error<D::Error>>(true)),
            forall|e: Rec| #[trigger]
                b.table_has(0, a.man().levels[0].len() as int, e) ==> e.seq >= 1,
            forall|e: Rec, f: Rec|
                #![trigger b.table_has(0, a.man().levels[0].len() as int, e), a.has_version(f)]
                b.table_has(0, a.man().levels[0].len() as int, e) && a.has_version(f) && e.key
                    == f.key ==> e.seq != f.seq,
        ensures
            b.traced(),
    {
        let l0 = a.man().levels;
        let l1 = b.man().levels;
        let n = l0[0].len() as int;
        let d = Self::dims();
        a.lemma_wf();
        Self::lemma_slot_kept_blocks(a, b, s);
        assert(at(l1, 0, n) && l1[0][n].id == t.id);
        assert(tab_sound(b.content(), l1[0][n], d));
        lemma_tab_streams(b.content(), l1[0][n], d);
        let recs = tab_recs(b.content(), l1[0][n], d);
        assert forall|src: Option<u32>, e: Rec| #[trigger] b.source_has(src, e) implies if src
            == Some(t.id) {
            b.table_has(0, n, e)
        } else {
            a.source_has(src, e) && a.has_version(e)
        } by {
            if src is Some {
                let (l, i) = choose|l: int, i: int| #[trigger]
                    b.table_has(l, i, e) && l1[l][i].id == src->0;
                if !(l == 0 && i == n) {
                    assert(l1[l][i] == l0[l][i]);
                    assert(at(l0, l, i) && l0[l][i].id == src->0);
                    Self::lemma_table_from(a, b, l, i, l, i, e);
                }
            } else {
                assert(a.source_has(src, e));
            }
        }
        assert forall|p: Option<u32>, q: Option<u32>, e: Rec, f: Rec|
            #![trigger b.source_has(p, e), b.source_has(q, f)]
            b.source_has(p, e) && b.source_has(q, f) && e.key == f.key && e.seq
                == f.seq implies p == q && e == f by {
            if p == Some(t.id) && q == Some(t.id) {
                let x = recs.index_of(e);
                let y = recs.index_of(f);
                assert(recs[x].key == recs[y].key);
            } else if p == Some(t.id) {
                assert(b.table_has(0, n, e) && a.has_version(f));
            } else if q == Some(t.id) {
                assert(b.table_has(0, n, f) && a.has_version(e));
            }
        }
    }

    /// What a power loss leaves of a durable traced database is traced when
    /// it is opened again.
    pub proof fn law_reopen_traced(a: &Self, b: &Self, rep: OpenReport)
        requires
            a.wf(),
            a.sound(),
            a.durable(),
            a.traced(),
            b.wf(),
            b.is_opened(),
            b.content() == a.kept(),
            b.kept() == b.content(),
            b.config() == a.config(),
            b.images() =~= Map::<(u32, u64), Seq<u8>>::empty(),
            opened_as(*b, rep),
        ensures
            b.traced(),
    {
        let none = Set::<Rec>::empty();
        Self::law_reopen(a, b, rep);
        a.lemma_kept_blocks();
        assert(Self::blocks_kept(a, b));
        Self::lemma_mem_grown(a, b, none);
        Self::lemma_grown(a, b, none);
    }

    /// The job in flight drops no deletion that something aside is older
    /// than, and knows every view that can still be read.
    pub open spec fn job_safe(
        &self,
        c: &Compaction<BLOCK, KEY_MAX, VAL_MAX, BLOOM_BYTES>,
    ) -> bool {
        self.keeps_views(job_of(*c))
    }

    /// As [`job_safe`](Db::job_safe), of a job.
    pub open spec fn keeps_views(&self, j: JobV) -> bool {
        &&& self.guards(j)
        &&& keep_wf(j.keep)
        &&& watched(j, u64::MAX)
        &&& forall|i: int| 0 <= i < self.snaps().len() ==> watched(j, #[trigger] self.snaps()[i])
    }

    /// Reads at the live view and at every live snapshot are the same, at
    /// any tick from `purge_before` on.
    pub open spec fn views_as(&self, o: &Self, purge_before: u64) -> bool {
        forall|key: Seq<u8>, max_seq: u64, now: u64|
            (max_seq == u64::MAX || o.snaps().contains(max_seq)) && now >= purge_before ==> (
            #[trigger] self.value_at(key, max_seq, now)) == o.value_at(key, max_seq, now)
    }

    /// The tick up to which a commit of the step may purge expired entries.
    pub open spec fn purge_line(
        &self,
        c: &Compaction<BLOCK, KEY_MAX, VAL_MAX, BLOOM_BYTES>,
    ) -> u64 {
        if self.job_current(c) {
            job_of(*c).keep.purge_before
        } else {
            c.purge_before
        }
    }

    /// A job that keeps the live views still does after what brings aside
    /// newer versions only.
    proof fn lemma_views_kept(a: &Self, b: &Self, j: JobV)
        requires
            a.wf(),
            a.sound(),
            a.keeps_views(j),
            super::compaction::inputs_live(a.man().levels, j.inputs),
            b.snaps() == a.snaps(),
            Self::blocks_kept(a, b),
            forall|f: Rec| #[trigger]
                b.held_aside(j, f) ==> a.held_aside(j, f) || f.seq > a.issued_seq(),
        ensures
            b.keeps_views(j),
    {
        let levels = a.man().levels;
        let d = Self::dims();
        assert forall|e: Rec, f: Rec|
            #![trigger b.held_input(j, e), b.held_aside(j, f)]
            b.held_input(j, e) && b.held_aside(j, f) && e.key == f.key && drops(
                j.keep,
                e,
            ) implies f.seq > e.seq by {
            let x = choose|x: int|
                0 <= x < j.inputs.len() && tab_recs(
                    b.content(),
                    (#[trigger] j.inputs[x]).1,
                    d,
                ).contains(e);
            let (l, t) = j.inputs[x];
            assert(levels[l].contains(t));
            let k = choose|k: int| 0 <= k < levels[l].len() && levels[l][k] == t;
            assert(at(levels, l, k) && levels[l][k] == t);
            assert(tab_sound(a.content(), levels[l][k], d));
            lemma_tab_kept(a.content(), b.content(), t, d);
            assert(tab_recs(a.content(), j.inputs[x].1, d).contains(e));
            assert(a.held_input(j, e));
            assert(a.table_has(l, k, e));
            a.lemma_table_source(l, k, e);
            a.lemma_source_seq(Some(t.id), e);
        }
    }

    /// A write, whatever comes of it, leaves the job in flight safe.
    pub proof fn law_write_keeps_safe(
        a: &Self,
        b: &Self,
        rec0: WalRec,
        r: Result<u64, Error<D::Error>>,
        c: &Compaction<BLOCK, KEY_MAX, VAL_MAX, BLOOM_BYTES>,
    )
        requires
            a.wf(),
            a.sound(),
            Self::wrote(a, b, rec0, r),
            a.job_current(c),
            a.job_held(c),
            a.job_safe(c),
        ensures
            b.job_safe(c),
    {
        let j = job_of(*c);
        let rec = WalRec { seq: (a.issued_seq() + 1) as u64, ..rec0 };
        assert(Self::blocks_kept(a, b)) by {
            if b.content() != a.content() {
                Self::lemma_log_kept_blocks(a, b);
            }
        }
        assert forall|f: Rec| #[trigger] b.held_aside(j, f) implies a.held_aside(j, f) || f.seq
            > a.issued_seq() by {
            if b.mem_has(f) {
                if r is Ok {
                    lemma_with_rec(a.mem(), entry_of(rec), f);
                }
            } else {
                let (l, i) = choose|l: int, i: int| #[trigger]
                    b.table_has(l, i, f) && !in_job(j.inputs, b.man().levels[l][i].id);
                Self::lemma_table_from(a, b, l, i, l, i, f);
            }
        }
        Self::lemma_views_kept(a, b, j);
    }

    /// A batch, whatever comes of it, leaves the job in flight safe.
    pub proof fn law_batch_keeps_safe(
        a: &Self,
        b: &Self,
        ops: Seq<BatchOpV>,
        r: Result<u64, Error<D::Error>>,
        c: &Compaction<BLOCK, KEY_MAX, VAL_MAX, BLOOM_BYTES>,
    )
        requires
            a.wf(),
            a.sound(),
            Self::wrote_batch(a, b, ops, r),
            a.job_current(c),
            a.job_held(c),
            a.job_safe(c),
        ensures
            b.job_safe(c),
    {
        let j = job_of(*c);
        let rs = batch_recs(ops, (a.issued_seq() + 1) as u64);
        assert(Self::blocks_kept(a, b)) by {
            if b.content() != a.content() {
                Self::lemma_log_kept_blocks(a, b);
            }
        }
        assert forall|f: Rec| #[trigger] b.held_aside(j, f) implies a.held_aside(j, f) || f.seq
            > a.issued_seq() by {
            if b.mem_has(f) {
                if b.mem() != a.mem() {
                    lemma_applied(a.mem(), rs, f);
                }
            } else {
                let (l, i) = choose|l: int, i: int| #[trigger]
                    b.table_has(l, i, f) && !in_job(j.inputs, b.man().levels[l][i].id);
                Self::lemma_table_from(a, b, l, i, l, i, f);
            }
        }
        Self::lemma_views_kept(a, b, j);
    }

    /// A flush, whatever comes of it, leaves the job in flight safe.
    pub proof fn law_flush_keeps_safe(
        a: &Self,
        b: &Self,
        r: Result<(), Error<D::Error>>,
        c: &Compaction<BLOCK, KEY_MAX, VAL_MAX, BLOOM_BYTES>,
    )
        requires
            a.wf(),
            a.sound(),
            Self::flushed(a, b, r),
            a.job_current(c),
            a.job_held(c),
            a.job_safe(c),
        ensures
            b.job_safe(c),
    {
        let j = job_of(*c);
        let l0 = a.man().levels;
        let l1 = b.man().levels;
        let n = l0[0].len() as int;
        a.lemma_wf();
        if b.mem() == a.mem() && l1 == l0 {
            assert(Self::blocks_kept(a, b)) by {
                if b.content() != a.content() {
                    if a.mem().len() == 0 {
                        Self::lemma_copy_kept_blocks(a, b);
                    } else {
                        let s = choose|s: u32| #[trigger]
                            next_free(a.slot_map(), s) && Self::flushed_into(a, b, s, r);
                        Self::lemma_slot_kept_blocks(a, b, s);
                    }
                }
            }
            assert forall|f: Rec| #[trigger] b.held_aside(j, f) implies a.held_aside(j, f) by {
                if !b.mem_has(f) {
                    let (l, i) = choose|l: int, i: int| #[trigger]
                        b.table_has(l, i, f) && !in_job(j.inputs, l1[l][i].id);
                    Self::lemma_table_from(a, b, l, i, l, i, f);
                }
            }
        } else {
            let s = choose|s: u32| #[trigger]
                next_free(a.slot_map(), s) && Self::flushed_into(a, b, s, r);
            let base = a.slot_map().base_of(s as int) as u64;
            let t = flush_tab(a.mem(), a.man().next_table_id, base, BLOCK as int);
            Self::lemma_flush_reads(a, b, s);
            assert forall|f: Rec| #[trigger] b.held_aside(j, f) implies a.held_aside(j, f) by {
                if !b.mem_has(f) {
                    let (l, i) = choose|l: int, i: int| #[trigger]
                        b.table_has(l, i, f) && !in_job(j.inputs, l1[l][i].id);
                    if l == 0 && i == n {
                        assert(l1[l][i] == t);
                        let x = lemma_points_from(a.mem(), points_of(a.mem()).index_of(f));
                        assert(a.mem()[x] == f);
                        assert(a.mem_has(f));
                    } else {
                        assert(l1[l][i] == l0[l][i]);
                        assert(at(l0, l, i));
                        Self::lemma_table_from(a, b, l, i, l, i, f);
                    }
                }
            }
        }
        Self::lemma_views_kept(a, b, j);
    }

    /// A snapshot leaves the job in flight safe: it sees all that the job
    /// takes in.
    pub proof fn law_snapshot_keeps_safe(
        a: &Self,
        b: &Self,
        c: &Compaction<BLOCK, KEY_MAX, VAL_MAX, BLOOM_BYTES>,
    )
        requires
            a.wf(),
            a.sound(),
            a.job_held(c),
            a.job_safe(c),
            b.but_snaps(a),
            forall|i: int|
                0 <= i < b.snaps().len() ==> a.snaps().contains(#[trigger] b.snaps()[i])
                    || b.snaps()[i] == a.issued_seq(),
        ensures
            b.job_safe(c),
    {
        let j = job_of(*c);
        let levels = a.man().levels;
        lemma_top_flat(levels, a.issued_seq());
        assert forall|i: int| 0 <= i < b.snaps().len() implies watched(
            j,
            #[trigger] b.snaps()[i],
        ) by {
            let v = b.snaps()[i];
            if a.snaps().contains(v) {
                let k = a.snaps().index_of(v);
                assert(watched(j, a.snaps()[k]));
            } else {
                assert forall|x: int| 0 <= x < j.inputs.len() implies (
                #[trigger] j.inputs[x]).1.max_seq <= v by {
                    let (l, t) = j.inputs[x];
                    assert(levels[l].contains(t));
                    let k = choose|k: int| 0 <= k < levels[l].len() && levels[l][k] == t;
                    assert(at(levels, l, k) && levels[l][k] == t);
                }
            }
        }
        assert forall|e: Rec, f: Rec|
            #![trigger b.held_input(j, e), b.held_aside(j, f)]
            b.held_input(j, e) && b.held_aside(j, f) && e.key == f.key && drops(
                j.keep,
                e,
            ) implies f.seq > e.seq by {
            assert(a.held_input(j, e));
            assert(a.held_aside(j, f)) by {
                if !a.mem_has(f) {
                    let (l, i) = choose|l: int, i: int| #[trigger]
                        b.table_has(l, i, f) && !in_job(j.inputs, b.man().levels[l][i].id);
                    assert(a.table_has(l, i, f));
                }
            }
        }
    }

    /// One step of a job that keeps the live views: they stay, the database
    /// stays traced, and a job that goes on still keeps them.
    proof fn lemma_on_keeps(
        a: &Self,
        b: &Self,
        c: &Compaction<BLOCK, KEY_MAX, VAL_MAX, BLOOM_BYTES>,
        j: JobV,
        n: nat,
        r: Result<Progress, Error<D::Error>>,
    )
        requires
            a.wf(),
            a.sound(),
            a.traced(),
            a.job_fits(j),
            a.keeps_views(j),
            Self::stepped_on(a, b, c, j, n, r),
        ensures
            b.traced(),
            r == Ok::<Progress, Error<D::Error>>(Progress::Done) ==> b.views_as(
                a,
                j.keep.purge_before,
            ),
            r == Ok::<Progress, Error<D::Error>>(Progress::More) ==> b.job_safe(c),
    {
        let none = Set::<Rec>::empty();
        if r == Ok::<Progress, Error<D::Error>>(Progress::Done) {
            let w = job_data::<D::Error>(a.content(), j, BLOCK as int, KEY_MAX, VAL_MAX)->Ok_0;
            Self::law_compaction_traced(a, b, j, w);
            a.law_traced_agrees();
            assert forall|key: Seq<u8>, max_seq: u64, now: u64|
                (max_seq == u64::MAX || a.snaps().contains(max_seq)) && now
                    >= j.keep.purge_before implies (#[trigger] b.value_at(key, max_seq, now))
                == a.value_at(key, max_seq, now) by {
                if a.snaps().contains(max_seq) {
                    let i = a.snaps().index_of(max_seq);
                    assert(watched(j, a.snaps()[i]));
                }
                Self::law_compaction_keeps_reads(a, b, j, w, key, max_seq, now);
            }
        } else {
            Self::lemma_slot_kept_blocks(a, b, j.slot);
            Self::lemma_mem_grown(a, b, none);
            Self::lemma_grown(a, b, none);
            if r is Ok {
                assert forall|f: Rec| #[trigger] b.held_aside(j, f) implies a.held_aside(j, f) by {
                    if !b.mem_has(f) {
                        let (l, i) = choose|l: int, i: int| #[trigger]
                            b.table_has(l, i, f) && !in_job(j.inputs, b.man().levels[l][i].id);
                        Self::lemma_table_from(a, b, l, i, l, i, f);
                    }
                }
                Self::lemma_views_kept(a, b, j);
            }
        }
    }

    /// A compaction step, whatever comes of it, keeps a database traced.
    /// Reads at the live view and at every live snapshot stay as they were,
    /// also when it commits; a job that goes on is safe.
    pub proof fn law_step_keeps_views(
        a: &Self,
        b: &Self,
        c0: &Compaction<BLOCK, KEY_MAX, VAL_MAX, BLOOM_BYTES>,
        c1: &Compaction<BLOCK, KEY_MAX, VAL_MAX, BLOOM_BYTES>,
        r: Result<Progress, Error<D::Error>>,
    )
        requires
            a.wf(),
            a.sound(),
            a.traced(),
            a.job_current(c0) ==> a.job_held(c0) && a.job_safe(c0),
            Self::stepped(a, b, c0, c1, r),
        ensures
            b.traced(),
            r == Ok::<Progress, Error<D::Error>>(Progress::Done) ==> b.views_as(
                a,
                a.purge_line(c0),
            ),
            r == Ok::<Progress, Error<D::Error>>(Progress::More) ==> b.job_safe(c1),
    {
        if a.job_current(c0) {
            Self::lemma_on_keeps(a, b, c1, job_of(*c0), c0.writer@.groups.len(), r);
        } else {
            let m = choose|m: Self| #[trigger]
                m.idled(a) && m.wf() && Self::stepped_anew(&m, b, c1, c0.purge_before, r);
            Self::lemma_idled(a, &m);
            Self::lemma_anew_keeps(&m, b, c1, c0.purge_before, r);
            assert forall|key: Seq<u8>, max_seq: u64, now: u64|
                (max_seq == u64::MAX || a.snaps().contains(max_seq)) && now >= c0.purge_before && r
                    == Ok::<Progress, Error<D::Error>>(Progress::Done) implies (
            #[trigger] b.value_at(key, max_seq, now)) == a.value_at(key, max_seq, now) by {
                assert(b.value_at(key, max_seq, now) == m.value_at(key, max_seq, now));
            }
        }
    }

    /// As [`law_step_keeps_views`](Db::law_step_keeps_views), without a job
    /// in flight.
    proof fn lemma_anew_keeps(
        m: &Self,
        b: &Self,
        c1: &Compaction<BLOCK, KEY_MAX, VAL_MAX, BLOOM_BYTES>,
        purge_before: u64,
        r: Result<Progress, Error<D::Error>>,
    )
        requires
            m.wf(),
            m.sound(),
            m.traced(),
            Self::stepped_anew(m, b, c1, purge_before, r),
        ensures
            b.traced(),
            r == Ok::<Progress, Error<D::Error>>(Progress::Done) ==> b.views_as(m, purge_before),
            r == Ok::<Progress, Error<D::Error>>(Progress::More) ==> b.job_safe(c1),
    {
        if b.gave_up(m) && r != Ok::<Progress, Error<D::Error>>(Progress::More) {
            Self::lemma_idled(m, b);
        } else {
            let j = choose|j: JobV| #[trigger]
                m.selects(j) && j.keep.purge_before == purge_before && Self::stepped_on(
                    m,
                    b,
                    c1,
                    j,
                    0,
                    r,
                );
            Self::law_selection_guards(m, j);
            Self::lemma_on_keeps(m, b, c1, j, 0, r);
        }
    }

    /// What one call does to reads: a write or a batch adds to them, a
    /// flush, an archival that failed and the like leave every read, and a
    /// compaction step leaves the reads at live views.
    pub open spec fn next_call(a: &Self, b: &Self, purge_before: u64) -> bool {
        ||| exists|rec0: WalRec, r: Result<u64, Error<D::Error>>| #[trigger]
            Self::wrote(a, b, rec0, r)
        ||| exists|ops: Seq<BatchOpV>, r: Result<u64, Error<D::Error>>| #[trigger]
            Self::wrote_batch(a, b, ops, r) && all_queued_ok(ops)
        ||| b.reads_as(a)
        ||| b.views_as(a, purge_before)
    }

    /// Call `i` of a run.
    pub open spec fn call_at(run: Seq<Self>, i: int, purge_before: u64) -> bool {
        Self::next_call(&run[i - 1], &run[i], purge_before)
    }

    /// Snapshot isolation over a run of calls: while a snapshot is live,
    /// reads at it give what they gave first, whatever writes, batches,
    /// flushes and compaction steps come between.
    #[verifier::rlimit(40)]
    pub proof fn law_snapshot_holds(
        run: Seq<Self>,
        purge_before: u64,
        key: Seq<u8>,
        snap: u64,
        now: u64,
    )
        requires
            run.len() > 0,
            forall|i: int|
                0 <= i < run.len() ==> (#[trigger] run[i]).wf() && run[i].sound()
                    && run[i].snaps().contains(snap),
            forall|i: int| 0 < i < run.len() ==> #[trigger] Self::call_at(run, i, purge_before),
            now >= purge_before,
        ensures
            run.last().value_at(key, snap, now) == run[0].value_at(key, snap, now),
        decreases run.len(),
    {
        if run.len() > 1 {
            let d = run.drop_last();
            let n = run.len() - 1;
            assert forall|i: int| 0 <= i < d.len() implies (#[trigger] d[i]).wf() && d[i].sound()
                && d[i].snaps().contains(snap) by {
                assert(run[i].wf());
            }
            assert forall|i: int| 0 < i < d.len() implies #[trigger] Self::call_at(
                d,
                i,
                purge_before,
            ) by {
                assert(Self::call_at(run, i, purge_before));
            }
            Self::law_snapshot_holds(d, purge_before, key, snap, now);
            let a = run[n - 1];
            let b = run[n];
            assert(a.wf() && Self::call_at(run, n, purge_before));
            a.lemma_wf();
            assert(a.snaps()[a.snaps().index_of(snap)] <= a.issued_seq());
            if exists|rec0: WalRec, r: Result<u64, Error<D::Error>>| #[trigger]
                Self::wrote(&a, &b, rec0, r) {
                let (rec0, r) = choose|rec0: WalRec, r: Result<u64, Error<D::Error>>| #[trigger]
                    Self::wrote(&a, &b, rec0, r);
                Self::law_snapshot_isolation(&a, &b, rec0, r, key, snap, now);
            } else if exists|ops: Seq<BatchOpV>, r: Result<u64, Error<D::Error>>| #[trigger]
                Self::wrote_batch(&a, &b, ops, r) && all_queued_ok(ops) {
                let (ops, r) = choose|ops: Seq<BatchOpV>, r: Result<u64, Error<D::Error>>|
                    #[trigger] Self::wrote_batch(&a, &b, ops, r) && all_queued_ok(ops);
                Self::law_batch_isolation(&a, &b, ops, r, key, snap, now);
            } else {
                assert(b.value_at(key, snap, now) == a.value_at(key, snap, now));
            }
        }
    }

    /// Dropping a job changes nothing that is stored.
    proof fn lemma_idled(a: &Self, m: &Self)
        requires
            a.wf(),
            a.sound(),
            a.traced(),
            m.gave_up(a),
        ensures
            m.traced(),
            m.sound(),
    {
        let none = Set::<Rec>::empty();
        Self::lemma_mem_grown(a, m, none);
        Self::lemma_grown(a, m, none);
        Self::lemma_tidy_same(a, m);
    }
}

} // verus!

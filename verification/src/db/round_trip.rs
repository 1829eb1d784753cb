//! Archiving a table and attaching it again.

use vstd::prelude::*;

use super::archive::{dropped, SealedTable};
use super::compact_reads::{lemma_acc_best, lemma_acc_cover, lemma_order_has};
use super::ingest::{grafted, holds_table};
use super::place::{at, lemma_read_order, lemma_tables_kept, lemma_tables_kept_both};
use super::room::next_free;
use super::scan::{agree, holds, lemma_best, lemma_hit_held, numbered, ScannedV};
use super::view::{
    acc_over, is_run_of, lemma_tab_is, lemma_tab_kept, mem_acc, read_order, tab_rdels, tab_recs,
    tab_run, tab_sound, DimsV,
};
use super::{live_id, Db};
use crate::compact::rdel_merge::cover_of;
use crate::compact::sift::first_at;
use crate::device::BlockDevice;
use crate::error::Error;
use crate::manifest_format::TabV;
use crate::memtable::Rec;
use crate::sstable::relocate::relocated;
use crate::sstable::table::RunV;

verus! {

/// The table holds the same on both devices.
spec fn same_table(c0: Map<u64, Seq<u8>>, c1: Map<u64, Seq<u8>>, t: TabV, d: DimsV) -> bool {
    &&& tab_recs(c1, t, d) == tab_recs(c0, t, d)
    &&& tab_rdels(c1, t, d) == tab_rdels(c0, t, d)
}

/// Some table of `v` holds the same as table `(l, x)` of `w`.
spec fn twin(w: ScannedV, l: int, x: int, v: ScannedV, d: DimsV) -> bool {
    exists|m: int, y: int|
        {
            &&& at(v.levels, m, y)
            &&& tab_recs(v.content, #[trigger] v.levels[m][y], d) == tab_recs(
                w.content,
                w.levels[l][x],
                d,
            )
            &&& tab_rdels(v.content, v.levels[m][y], d) == tab_rdels(w.content, w.levels[l][x], d)
        }
}

/// Every table of `w` has a twin in `v`.
spec fn twins(w: ScannedV, v: ScannedV, d: DimsV) -> bool {
    forall|l: int, x: int| at(w.levels, l, x) ==> #[trigger] twin(w, l, x, v, d)
}

/// What `w` holds, `v` holds.
proof fn lemma_twin_holds(w: ScannedV, v: ScannedV, d: DimsV, e: Rec)
    requires
        w.mem == v.mem,
        twins(w, v, d),
    ensures
        holds(w, d, e) ==> holds(v, d, e),
{
    if holds(w, d, e) && !(w.mem.contains(e) && !e.range_del) {
        let (l, x) = choose|l: int, x: int|
            at(w.levels, l, x) && tab_recs(w.content, #[trigger] w.levels[l][x], d).contains(e);
        assert(twin(w, l, x, v, d));
    }
}

/// What a read finds does not depend on where the tables stand.
proof fn lemma_twins_read(v: ScannedV, w: ScannedV, d: DimsV, key: Seq<u8>, max_seq: u64)
    requires
        w.mem == v.mem,
        twins(w, v, d),
        twins(v, w, d),
        agree(v, d),
        numbered(v, d),
    ensures
        acc_over(
            mem_acc(w.mem, key, max_seq),
            w.content,
            read_order(w.levels),
            d,
            key,
            max_seq,
            None,
        ) == acc_over(
            mem_acc(v.mem, key, max_seq),
            v.content,
            read_order(v.levels),
            d,
            key,
            max_seq,
            None,
        ),
{
    let a0 = mem_acc(v.mem, key, max_seq);
    let ts = read_order(v.levels);
    let us = read_order(w.levels);
    let p = acc_over(a0, v.content, ts, d, key, max_seq, None);
    let q = acc_over(a0, w.content, us, d, key, max_seq, None);
    lemma_acc_best(a0, v.content, ts, d, key, max_seq, None);
    lemma_hit_held(v, d, v.mem, key, max_seq);
    assert forall|e: Rec, f: Rec|
        #![trigger holds(w, d, e), holds(w, d, f)]
        holds(w, d, e) && holds(w, d, f) && e.key == f.key && e.seq == f.seq implies e == f by {
        lemma_twin_holds(w, v, d, e);
        lemma_twin_holds(w, v, d, f);
    }
    assert forall|e: Rec| #[trigger] holds(w, d, e) implies e.seq >= 1 by {
        lemma_twin_holds(w, v, d, e);
    }
    assert forall|l: int, x: int| at(w.levels, l, x) implies (first_at(
        tab_recs(w.content, #[trigger] w.levels[l][x], d),
        key,
        max_seq,
    ) matches Some(e) ==> p.best is Some && e.seq <= p.best->0.seq) by {
        assert(twin(w, l, x, v, d));
        let (m, y) = choose|m: int, y: int|
            {
                &&& at(v.levels, m, y)
                &&& tab_recs(v.content, #[trigger] v.levels[m][y], d) == tab_recs(
                    w.content,
                    w.levels[l][x],
                    d,
                )
                &&& tab_rdels(v.content, v.levels[m][y], d) == tab_rdels(
                    w.content,
                    w.levels[l][x],
                    d,
                )
            };
        let k = lemma_order_has(v.levels, m, y);
        assert(ts[k] == v.levels[m][y]);
        lemma_hit_held(v, d, tab_recs(v.content, v.levels[m][y], d), key, max_seq);
    }
    if p.best is Some && p.best != a0.best {
        let k = choose|k: int|
            0 <= k < ts.len() && first_at(tab_recs(v.content, #[trigger] ts[k], d), key, max_seq)
                == p.best;
        let (m, y) = lemma_read_order(v.levels, k);
        assert(twin(v, m, y, w, d));
        let (l, x) = choose|l: int, x: int|
            {
                &&& at(w.levels, l, x)
                &&& tab_recs(w.content, #[trigger] w.levels[l][x], d) == tab_recs(
                    v.content,
                    v.levels[m][y],
                    d,
                )
                &&& tab_rdels(w.content, w.levels[l][x], d) == tab_rdels(
                    v.content,
                    v.levels[m][y],
                    d,
                )
            };
        assert(first_at(tab_recs(w.content, w.levels[l][x], d), key, max_seq) == p.best);
    }
    lemma_best(w, d, max_seq, key, p.best);
    lemma_twins_cover(v, w, d, key, max_seq);
    lemma_twins_cover(w, v, d, key, max_seq);
}

/// Tables with twins cover no more than the twins do.
proof fn lemma_twins_cover(v: ScannedV, w: ScannedV, d: DimsV, key: Seq<u8>, max_seq: u64)
    requires
        w.mem == v.mem,
        twins(w, v, d),
    ensures
        acc_over(
            mem_acc(w.mem, key, max_seq),
            w.content,
            read_order(w.levels),
            d,
            key,
            max_seq,
            None,
        ).cover <= acc_over(
            mem_acc(v.mem, key, max_seq),
            v.content,
            read_order(v.levels),
            d,
            key,
            max_seq,
            None,
        ).cover,
{
    let a0 = mem_acc(v.mem, key, max_seq);
    let ts = read_order(v.levels);
    let us = read_order(w.levels);
    lemma_acc_cover(a0, v.content, ts, d, key, max_seq, None);
    lemma_acc_cover(a0, w.content, us, d, key, max_seq, None);
    let q = acc_over(a0, w.content, us, d, key, max_seq, None).cover;
    if q != a0.cover {
        let k = choose|k: int|
            0 <= k < us.len() && cover_of(tab_rdels(w.content, #[trigger] us[k], d), key, max_seq)
                == Some(q);
        let (l, x) = lemma_read_order(w.levels, k);
        assert(twin(w, l, x, v, d));
        let (m, y) = choose|m: int, y: int|
            {
                &&& at(v.levels, m, y)
                &&& tab_recs(v.content, #[trigger] v.levels[m][y], d) == tab_recs(
                    w.content,
                    w.levels[l][x],
                    d,
                )
                &&& tab_rdels(v.content, v.levels[m][y], d) == tab_rdels(
                    w.content,
                    w.levels[l][x],
                    d,
                )
            };
        let z = lemma_order_has(v.levels, m, y);
        assert(ts[z] == v.levels[m][y]);
    }
}

/// A copy of a table's blocks, as a device would hold it at `base`.
spec fn laid(src: Map<u64, Seq<u8>>, src_base: u64, base: u64, n: int, c: Map<u64, Seq<u8>>) -> Map<
    u64,
    Seq<u8>,
> {
    Map::new(
        |id: u64| true,
        |id: u64|
            if base <= id < base + n {
                src[(src_base + (id - base)) as u64]
            } else {
                c[id]
            },
    )
}

impl<
    D: BlockDevice,
    const BLOCK: usize,
    const KEY_MAX: usize,
    const VAL_MAX: usize,
    const CAP: usize,
    const ARENA: usize,
    const LEVELS: usize,
    const TABLES: usize,
    const BLOOM_BYTES: usize,
    const CACHE: usize,
> Db<D, BLOCK, KEY_MAX, VAL_MAX, CAP, ARENA, LEVELS, TABLES, BLOOM_BYTES, CACHE> {
    /// An attached copy of a table holds what the table held.
    pub proof fn law_ingest_holds(
        a: &Self,
        b: &Self,
        t: SealedTable<KEY_MAX>,
        src: Map<u64, Seq<u8>>,
        src_base: u64,
        s: u32,
        run: RunV,
        home: Map<u64, Seq<u8>>,
    )
        requires
            a.wf(),
            a.sound(),
            next_free(a.slot_map(), s),
            t.block_count <= a.slot_map().blocks_per_slot(),
            holds_table(src, src_base, t, Self::dims(), run, home),
            Self::ingested_into(a, b, t, src, src_base, s, Ok::<bool, Error<D::Error>>(true)),
        ensures
            ({
                let u = t.placed_at(a.slot_map().base_of(s as int) as u64);
                &&& tab_sound(b.content(), u, Self::dims())
                &&& tab_recs(b.content(), u, Self::dims()) == run.recs()
                &&& tab_rdels(b.content(), u, Self::dims()) == run.rdels()
            }),
    {
        let base = a.slot_map().base_of(s as int) as u64;
        let n = t.block_count as int;
        let d = Self::dims();
        let c1 = b.content();
        let c0 = laid(src, src_base, base, n, c1);
        a.lemma_wf();
        a.slot_map().law_slots_tile(s as int, s + 1);
        a.slot_map().law_slots_tile(s as int, a.slot_map().slot_count() as int);
        assert(is_run_of(run, home, t.placed_at(run.base), d));
        assert(n >= t.rdel_blocks + 3);
        assert(grafted(src, src_base, c1, base, n, t.rdel_blocks as int));
        let sh = super::ingest::shifted(src, src_base, base);
        super::ingest::lemma_copy_range::<D::Error>(src, src_base, n as nat);
        assert(src_base + n - 1 <= u64::MAX);
        assert(sh[(base + n - 1) as u64] == src[(src_base + n - 1) as u64]);
        assert(sh[(base + n - 2) as u64] == src[(src_base + n - 2) as u64]);
        assert forall|i: int| 0 <= i < n implies c0[(base + i) as u64] == #[trigger] src[(src_base
            + i) as u64] by {}
        assert(c0[(base + n - 1) as u64] == src[(src_base + n - 1) as u64]);
        assert(c0[(base + n - 2) as u64] == src[(src_base + n - 2) as u64]);
        assert forall|id: u64| !(base + n - 2 <= id < base + n) implies #[trigger] c0[id]
            == c1[id] by {
            if base <= id < base + n - 2 {
                let i = id - base;
                assert(c1[(base + i) as u64] == src[(src_base + i) as u64]);
            }
        }
        assert(relocated::<D::Error>(c0, c1, base, t.block_count, t.rdel_blocks, Ok(())));
        Self::lemma_grafted_run(t, src, src_base, c0, c1, base, run, home);
        lemma_tab_is(RunV { base, ..run }, c1, t.placed_at(base), d);
    }

    /// A table attaches exactly once: an ingest retried after it was
    /// attached reports so and changes nothing.
    pub proof fn law_ingest_once(
        a: &Self,
        b: &Self,
        c: &Self,
        t: SealedTable<KEY_MAX>,
        src: Map<u64, Seq<u8>>,
        src_base: u64,
        again: Map<u64, Seq<u8>>,
        again_base: u64,
        r: Result<bool, Error<D::Error>>,
    )
        requires
            a.wf(),
            Self::ingested(a, b, t, src, src_base, BLOCK, Ok::<bool, Error<D::Error>>(true)),
            Self::ingested(b, c, t, again, again_base, BLOCK, r),
        ensures
            r == Ok::<bool, Error<D::Error>>(false),
            *c == *b,
    {
        let la = a.man().levels;
        let lb = b.man().levels;
        a.lemma_wf();
        assert(!live_id(la, t.id));
        let s = choose|s: u32| #[trigger]
            next_free(a.slot_map(), s) && Self::ingested_into(
                a,
                b,
                t,
                src,
                src_base,
                s,
                Ok::<bool, Error<D::Error>>(true),
            );
        let base = a.slot_map().base_of(s as int) as u64;
        let n = la[0].len() as int;
        assert(lb == la.update(0, la[0].push(t.placed_at(base))));
        assert(at(lb, 0, n) && lb[0][n].id == t.id);
        assert(live_id(lb, t.id));
        assert forall|l: int, i: int| at(lb, l, i) && (#[trigger] lb[l][i]).id == t.id implies l == 0
            && i == n by {
            if l != 0 || i != n {
                assert(at(la, l, i) && la[l][i] == lb[l][i]);
            }
        }
    }

    /// Archiving a table and attaching a copy of its blocks again brings
    /// every read back to what it was.
    pub proof fn law_archive_then_ingest(
        a: &Self,
        b: &Self,
        c: &Self,
        level: int,
        i: int,
        t: SealedTable<KEY_MAX>,
        src: Map<u64, Seq<u8>>,
        src_base: u64,
        s: u32,
        key: Seq<u8>,
        max_seq: u64,
        now: u64,
    )
        requires
            a.wf(),
            a.sound(),
            a.versions_agree(),
            numbered(a.whole(), Self::dims()),
            at(a.man().levels, level, i),
            Self::archived(a, b, level, i, Ok::<bool, Error<D::Error>>(true)),
            b.wf(),
            b.sound(),
            t.placed_at(a.man().levels[level][i].first_block) == a.man().levels[level][i],
            forall|k: int|
                0 <= k < t.block_count ==> #[trigger] src[(src_base + k) as u64] == a.content()[(
                a.man().levels[level][i].first_block + k) as u64],
            next_free(b.slot_map(), s),
            t.block_count <= b.slot_map().blocks_per_slot(),
            Self::ingested_into(b, c, t, src, src_base, s, Ok::<bool, Error<D::Error>>(true)),
        ensures
            c.value_at(key, max_seq, now) == a.value_at(key, max_seq, now),
    {
        let d = Self::dims();
        let old = a.man().levels[level][i];
        let run = tab_run(a.content(), old, d);
        assert(tab_sound(a.content(), a.man().levels[level][i], d));
        assert(is_run_of(run, a.content(), old, d));
        assert(run.base == old.first_block);
        assert(holds_table(src, src_base, t, d, run, a.content()));
        Self::law_ingest_holds(b, c, t, src, src_base, s, run, a.content());
        Self::lemma_archive_kept(a, b, level, i);
        Self::lemma_ingest_kept(b, c, t, src, src_base, s);
        Self::lemma_there(a, b, c, level, i, t, src, src_base, s);
        Self::lemma_back(a, b, c, level, i, t, src, src_base, s);
        a.lemma_whole_agrees();
        lemma_twins_read(a.whole(), c.whole(), d, key, max_seq);
    }

    /// The memtable, the device and the levels.
    pub open spec fn whole(&self) -> ScannedV {
        ScannedV { mem: self.mem(), content: self.content(), levels: self.man().levels }
    }

    /// The database's versions agree as a whole.
    proof fn lemma_whole_agrees(&self)
        requires
            self.versions_agree(),
        ensures
            agree(self.whole(), Self::dims()),
    {
        let v = self.whole();
        let d = Self::dims();
        assert forall|e: Rec, f: Rec|
            #![trigger holds(v, d, e), holds(v, d, f)]
            holds(v, d, e) && holds(v, d, f) && e.key == f.key && e.seq == f.seq implies e == f by {
            self.lemma_whole_has(e);
            self.lemma_whole_has(f);
        }
    }

    proof fn lemma_whole_has(&self, e: Rec)
        ensures
            holds(self.whole(), Self::dims(), e) ==> self.has_version(e),
    {
        let v = self.whole();
        let d = Self::dims();
        if holds(v, d, e) && !self.mem_has(e) {
            let (l, x) = choose|l: int, x: int|
                at(v.levels, l, x) && tab_recs(v.content, #[trigger] v.levels[l][x], d).contains(e);
            assert(self.table_has(l, x, e));
        }
    }

    /// The tables that stay hold what they held after one is archived.
    #[verifier::spinoff_prover]
    #[verifier::rlimit(40)]
    proof fn lemma_archive_kept(a: &Self, b: &Self, level: int, i: int)
        requires
            a.wf(),
            a.sound(),
            at(a.man().levels, level, i),
            Self::archived(a, b, level, i, Ok::<bool, Error<D::Error>>(true)),
        ensures
            forall|l: int, x: int|
                at(b.man().levels, l, x) ==> same_table(
                    a.content(),
                    b.content(),
                    #[trigger] b.man().levels[l][x],
                    Self::dims(),
                ),
    {
        reveal(Db::tidy);
        let d = Self::dims();
        let levels = a.man().levels;
        let lb = b.man().levels;
        a.lemma_wf();
        a.lemma_copy_at();
        lemma_tables_kept(
            a.slot_map(),
            a.images(),
            a.content(),
            b.content(),
            levels,
            d,
            a.copy_at(),
            a.copy_at() + Self::stride(),
        );
        assert(lb == dropped(levels, level, i));
        assert forall|l: int, x: int| at(lb, l, x) implies same_table(
            a.content(),
            b.content(),
            #[trigger] lb[l][x],
            d,
        ) by {
            let y = if l == level && x >= i {
                x + 1
            } else {
                x
            };
            assert(at(levels, l, y) && levels[l][y] == lb[l][x]);
            assert(tab_sound(a.content(), levels[l][y], d));
            lemma_tab_kept(a.content(), b.content(), lb[l][x], d);
        }
    }

    /// The tables hold what they held after one is attached.
    #[verifier::spinoff_prover]
    #[verifier::rlimit(40)]
    proof fn lemma_ingest_kept(
        b: &Self,
        c: &Self,
        t: SealedTable<KEY_MAX>,
        src: Map<u64, Seq<u8>>,
        src_base: u64,
        s: u32,
    )
        requires
            b.wf(),
            b.sound(),
            next_free(b.slot_map(), s),
            Self::ingested_into(b, c, t, src, src_base, s, Ok::<bool, Error<D::Error>>(true)),
        ensures
            forall|l: int, x: int|
                at(b.man().levels, l, x) ==> same_table(
                    b.content(),
                    c.content(),
                    #[trigger] b.man().levels[l][x],
                    Self::dims(),
                ),
    {
        reveal(Db::tidy);
        let d = Self::dims();
        let lb = b.man().levels;
        b.lemma_wf();
        b.lemma_copy_at();
        lemma_tables_kept_both(
            b.slot_map(),
            b.images(),
            b.content(),
            c.content(),
            lb,
            d,
            s,
            b.copy_at(),
            b.copy_at() + Self::stride(),
        );
        assert forall|l: int, x: int| at(lb, l, x) implies same_table(
            b.content(),
            c.content(),
            #[trigger] lb[l][x],
            d,
        ) by {
            assert(tab_sound(b.content(), lb[l][x], d));
            lemma_tab_kept(b.content(), c.content(), lb[l][x], d);
        }
    }

    /// Every table in the end has a twin at the start.
    proof fn lemma_back(
        a: &Self,
        b: &Self,
        c: &Self,
        level: int,
        i: int,
        t: SealedTable<KEY_MAX>,
        src: Map<u64, Seq<u8>>,
        src_base: u64,
        s: u32,
    )
        requires
            a.wf(),
            b.wf(),
            at(a.man().levels, level, i),
            Self::archived(a, b, level, i, Ok::<bool, Error<D::Error>>(true)),
            Self::ingested_into(b, c, t, src, src_base, s, Ok::<bool, Error<D::Error>>(true)),
            ({
                let d = Self::dims();
                let u = t.placed_at(b.slot_map().base_of(s as int) as u64);
                let old = a.man().levels[level][i];
                &&& tab_recs(c.content(), u, d) == tab_recs(a.content(), old, d)
                &&& tab_rdels(c.content(), u, d) == tab_rdels(a.content(), old, d)
            }),
            forall|l: int, x: int|
                at(b.man().levels, l, x) ==> same_table(
                    a.content(),
                    c.content(),
                    #[trigger] b.man().levels[l][x],
                    Self::dims(),
                ),
        ensures
            twins(c.whole(), a.whole(), Self::dims()),
    {
        let d = Self::dims();
        let la = a.man().levels;
        let lb = b.man().levels;
        let lc = c.man().levels;
        a.lemma_wf();
        b.lemma_wf();
        assert(lb == dropped(la, level, i));
        assert forall|l: int, x: int| at(lc, l, x) implies #[trigger] twin(
            c.whole(),
            l,
            x,
            a.whole(),
            d,
        ) by {
            if l == 0 && x == lb[0].len() {
                assert(lc[l][x] == t.placed_at(b.slot_map().base_of(s as int) as u64));
                assert(tab_recs(a.content(), a.whole().levels[level][i], d) == tab_recs(
                    c.content(),
                    lc[l][x],
                    d,
                ));
            } else {
                let y = if l == level && x >= i {
                    x + 1
                } else {
                    x
                };
                assert(at(lb, l, x) && lc[l][x] == lb[l][x]);
                assert(at(la, l, y) && a.whole().levels[l][y] == lc[l][x]);
            }
        }
    }

    /// Every table at the start has a twin in the end.
    proof fn lemma_there(
        a: &Self,
        b: &Self,
        c: &Self,
        level: int,
        i: int,
        t: SealedTable<KEY_MAX>,
        src: Map<u64, Seq<u8>>,
        src_base: u64,
        s: u32,
    )
        requires
            a.wf(),
            b.wf(),
            at(a.man().levels, level, i),
            Self::archived(a, b, level, i, Ok::<bool, Error<D::Error>>(true)),
            Self::ingested_into(b, c, t, src, src_base, s, Ok::<bool, Error<D::Error>>(true)),
            ({
                let d = Self::dims();
                let u = t.placed_at(b.slot_map().base_of(s as int) as u64);
                let old = a.man().levels[level][i];
                &&& tab_recs(c.content(), u, d) == tab_recs(a.content(), old, d)
                &&& tab_rdels(c.content(), u, d) == tab_rdels(a.content(), old, d)
            }),
            forall|l: int, x: int|
                at(b.man().levels, l, x) ==> same_table(
                    a.content(),
                    c.content(),
                    #[trigger] b.man().levels[l][x],
                    Self::dims(),
                ),
        ensures
            twins(a.whole(), c.whole(), Self::dims()),
    {
        let d = Self::dims();
        let la = a.man().levels;
        let lb = b.man().levels;
        let lc = c.man().levels;
        a.lemma_wf();
        b.lemma_wf();
        assert(lb == dropped(la, level, i));
        assert forall|l: int, x: int| at(la, l, x) implies #[trigger] twin(
            a.whole(),
            l,
            x,
            c.whole(),
            d,
        ) by {
            if l == level && x == i {
                let n = lb[0].len() as int;
                assert(lc[0][n] == t.placed_at(b.slot_map().base_of(s as int) as u64));
                assert(at(lc, 0, n) && c.whole().levels[0][n] == lc[0][n]);
            } else {
                let y = if l == level && x > i {
                    x - 1
                } else {
                    x
                };
                assert(at(lb, l, y) && lb[l][y] == la[l][x]);
                assert(at(lc, l, y) && c.whole().levels[l][y] == la[l][x]);
            }
        }
    }
}

} // verus!

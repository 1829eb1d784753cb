//! What archiving a table does to reads.

use vstd::prelude::*;

use super::archive::dropped;
use super::compact_reads::{lemma_acc_best, lemma_acc_cover};
use super::place::{at, lemma_tables_kept};
use super::view::{
    acc_over, best_seq, is_run_of, lemma_acc_kept, mem_acc, read_order, tab_rdels, tab_recs,
    tab_run, AccV, DimsV,
};
use super::Db;
use crate::compact::bounds::overlap;
use crate::compact::rdel_merge::{cover_of, lemma_cover_of};
use crate::compact::sift::{first_at, lemma_first_at};
use crate::device::BlockDevice;
use crate::error::Error;
use crate::manifest_format::TabV;
use crate::memtable::{is_hit, Rec};

verus! {

/// Where table `i` of level `l` comes in reading order.
spec fn order_pos(levels: Seq<Seq<TabV>>, l: int, i: int) -> int
    decreases levels.len(),
{
    if levels.len() == 0 {
        0
    } else if levels.len() == 1 {
        levels[0].len() - 1 - i
    } else if l == levels.len() - 1 {
        read_order(levels.drop_last()).len() + i
    } else {
        order_pos(levels.drop_last(), l, i)
    }
}

/// A table stands at its place in reading order.
proof fn lemma_order_pos(levels: Seq<Seq<TabV>>, l: int, i: int)
    requires
        at(levels, l, i),
    ensures
        0 <= order_pos(levels, l, i) < read_order(levels).len(),
        read_order(levels)[order_pos(levels, l, i)] == levels[l][i],
    decreases levels.len(),
{
    if levels.len() > 1 && l < levels.len() - 1 {
        let d = levels.drop_last();
        assert(d[l] == levels[l]);
        lemma_order_pos(d, l, i);
    }
}

/// Every place in reading order is some table's.
proof fn lemma_order_from(levels: Seq<Seq<TabV>>, k: int) -> (r: (int, int))
    requires
        0 <= k < read_order(levels).len(),
    ensures
        at(levels, r.0, r.1),
        order_pos(levels, r.0, r.1) == k,
    decreases levels.len(),
{
    if levels.len() == 1 {
        (0, levels[0].len() - 1 - k)
    } else {
        let d = levels.drop_last();
        let n = read_order(d).len();
        if k < n {
            let (l, i) = lemma_order_from(d, k);
            assert(d[l] == levels[l]);
            (l, i)
        } else {
            (levels.len() - 1, k - n)
        }
    }
}

/// Dropping a table takes it out of the reading order.
proof fn lemma_order_dropped(levels: Seq<Seq<TabV>>, l: int, i: int)
    requires
        at(levels, l, i),
    ensures
        read_order(dropped(levels, l, i)) == read_order(levels).remove(order_pos(levels, l, i)),
    decreases levels.len(),
{
    let ls = dropped(levels, l, i);
    let k = order_pos(levels, l, i);
    lemma_order_pos(levels, l, i);
    if levels.len() == 1 {
        assert(read_order(ls) =~= read_order(levels).remove(k));
    } else {
        let d = levels.drop_last();
        if l == levels.len() - 1 {
            assert(ls.drop_last() =~= d);
            assert(read_order(ls) =~= read_order(levels).remove(k));
        } else {
            assert(d[l] == levels[l]);
            assert(ls.drop_last() =~= dropped(d, l, i));
            assert(ls.last() == levels.last());
            lemma_order_dropped(d, l, i);
            lemma_order_pos(d, l, i);
            assert(read_order(ls) =~= read_order(levels).remove(k));
        }
    }
}

/// Skipping an id that no table has skips nothing.
proof fn lemma_skip_none(
    a: AccV,
    c: Map<u64, Seq<u8>>,
    ts: Seq<TabV>,
    d: DimsV,
    key: Seq<u8>,
    max_seq: u64,
    id: u32,
)
    requires
        forall|x: int| 0 <= x < ts.len() ==> (#[trigger] ts[x]).id != id,
    ensures
        acc_over(a, c, ts, d, key, max_seq, Some(id)) == acc_over(
            a,
            c,
            ts,
            d,
            key,
            max_seq,
            None,
        ),
    decreases ts.len(),
{
    if ts.len() > 0 {
        assert(ts.last() == ts[ts.len() - 1]);
        lemma_skip_none(a, c, ts.drop_last(), d, key, max_seq, id);
    }
}

/// Skipping a table is reading the others.
proof fn lemma_skip_one(
    a: AccV,
    c: Map<u64, Seq<u8>>,
    ts: Seq<TabV>,
    d: DimsV,
    key: Seq<u8>,
    max_seq: u64,
    k: int,
)
    requires
        0 <= k < ts.len(),
        forall|x: int| 0 <= x < ts.len() && x != k ==> (#[trigger] ts[x]).id != ts[k].id,
    ensures
        acc_over(a, c, ts, d, key, max_seq, Some(ts[k].id)) == acc_over(
            a,
            c,
            ts.remove(k),
            d,
            key,
            max_seq,
            None,
        ),
    decreases ts.len(),
{
    let xs = ts.drop_last();
    let n = ts.len() - 1;
    if k == n {
        assert(ts.remove(k) =~= xs);
        assert forall|x: int| 0 <= x < xs.len() implies (#[trigger] xs[x]).id != ts[k].id by {
            assert(xs[x] == ts[x]);
        }
        lemma_skip_none(a, c, xs, d, key, max_seq, ts[k].id);
    } else {
        assert(ts.remove(k).drop_last() =~= xs.remove(k));
        assert(ts.remove(k).last() == ts.last());
        assert(ts.last() == ts[n]);
        assert(xs[k] == ts[k]);
        lemma_skip_one(a, c, xs, d, key, max_seq, k);
    }
}

impl<
    D: BlockDevice,
    const BLOCK: usize,
    const KEY_MAX: usize,
    const VAL_MAX: usize,
    const CAP: usize,
    const ARENA: usize,
    const LEVELS: usize,
    const TABLES: usize,
    const BLOOM_BYTES: usize,
    const CACHE: usize,
> Db<D, BLOCK, KEY_MAX, VAL_MAX, CAP, ARENA, LEVELS, TABLES, BLOOM_BYTES, CACHE> {
    /// A read after a table was archived is a read that skips the table.
    pub proof fn law_archive_reads(
        a: &Self,
        b: &Self,
        level: int,
        i: int,
        key: Seq<u8>,
        max_seq: u64,
        now: u64,
    )
        requires
            a.wf(),
            a.sound(),
            at(a.man().levels, level, i),
            Self::archived(a, b, level, i, Ok::<bool, Error<D::Error>>(true)),
        ensures
            b.value_at(key, max_seq, now) == super::view::read_spec(
                a.mem(),
                a.content(),
                a.man().levels,
                Self::dims(),
                key,
                max_seq,
                now,
                Some(a.man().levels[level][i].id),
            ),
    {
        reveal(Db::tidy);
        let levels = a.man().levels;
        let d = Self::dims();
        let t = levels[level][i];
        let ts = read_order(levels);
        let k = order_pos(levels, level, i);
        let acc = mem_acc(a.mem(), key, max_seq);
        a.lemma_wf();
        a.lemma_copy_at();
        lemma_order_pos(levels, level, i);
        lemma_order_dropped(levels, level, i);
        assert forall|x: int| 0 <= x < ts.len() && x != k implies (#[trigger] ts[x]).id
            != ts[k].id by {
            let (l, y) = lemma_order_from(levels, x);
            lemma_order_pos(levels, l, y);
            assert(ts[x] == levels[l][y]);
            if levels[l][y].id == levels[level][i].id {
                assert(l == level && y == i);
            }
        }
        lemma_skip_one(acc, a.content(), ts, d, key, max_seq, k);
        lemma_tables_kept(
            a.slot_map(),
            a.images(),
            a.content(),
            b.content(),
            levels,
            d,
            a.copy_at(),
            a.copy_at() + Self::stride(),
        );
        let us = ts.remove(k);
        assert forall|x: int| 0 <= x < us.len() implies super::view::tab_sound(
            a.content(),
            #[trigger] us[x],
            d,
        ) && crate::device::same_blocks(
            a.content(),
            b.content(),
            us[x].first_block as int,
            us[x].first_block + us[x].block_count,
        ) by {
            let y = if x < k {
                x
            } else {
                x + 1
            };
            assert(us[x] == ts[y]);
            let (l, z) = lemma_order_from(levels, y);
            lemma_order_pos(levels, l, z);
            assert(ts[y] == levels[l][z]);
        }
        lemma_acc_kept(acc, a.content(), b.content(), us, d, key, max_seq, None);
        assert(b.man().levels == dropped(levels, level, i));
    }

    /// The newest version that a read finds without table `id` is no newer
    /// than with it, and the same where table `id` has nothing newer.
    proof fn lemma_without_table(&self, key: Seq<u8>, view: u64, level: int, i: int)
        requires
            self.wf(),
            self.sound(),
            self.versions_agree(),
            at(self.man().levels, level, i),
            self.flips(key, view, self.man().levels[level][i].id),
        ensures
            ({
                let t = self.man().levels[level][i];
                let recs = tab_recs(self.content(), t, Self::dims());
                let rs = tab_rdels(self.content(), t, Self::dims());
                let ts = read_order(self.man().levels);
                let acc = mem_acc(self.mem(), key, view);
                let w = acc_over(acc, self.content(), ts, Self::dims(), key, view, Some(t.id));
                &&& w.best is Some
                &&& !w.best->0.tombstone
                &&& (first_at(recs, key, view) matches Some(e) && e.tombstone) || (cover_of(
                    rs,
                    key,
                    view,
                ) matches Some(q) && q > w.best->0.seq)
            }),
    {
        reveal(Db::tidy);
        let levels = self.man().levels;
        let c = self.content();
        let d = Self::dims();
        let t = levels[level][i];
        let ts = read_order(levels);
        let acc = mem_acc(self.mem(), key, view);
        let w = acc_over(acc, c, ts, d, key, view, Some(t.id));
        let v = acc_over(acc, c, ts, d, key, view, None);
        lemma_acc_best(acc, c, ts, d, key, view, Some(t.id));
        lemma_acc_best(acc, c, ts, d, key, view, None);
        lemma_acc_cover(acc, c, ts, d, key, view, Some(t.id));
        lemma_acc_cover(acc, c, ts, d, key, view, None);
        assert(w.best is Some);
        assert(best_seq(w.best) <= best_seq(v.best)) by {
            if w.best != acc.best {
                let x = choose|x: int|
                    0 <= x < ts.len() && ts[x].id != t.id && first_at(
                        tab_recs(c, #[trigger] ts[x], d),
                        key,
                        view,
                    ) == w.best;
                assert(first_at(tab_recs(c, ts[x], d), key, view) == w.best);
            }
        }
        self.lemma_found_held(key, view, Some(t.id));
        self.lemma_found_held(key, view, None);
        if v.best is None {
            assert(w.best == acc.best);
            assert(best_seq(w.best) == 0);
            assert(v.best == acc.best);
        }
        if v.cover > v.best->0.seq {
            if v.cover != acc.cover {
                let x = choose|x: int|
                    0 <= x < ts.len() && cover_of(tab_rdels(c, #[trigger] ts[x], d), key, view)
                        == Some(v.cover);
                if ts[x].id != t.id {
                    assert(v.cover <= w.cover);
                } else {
                    self.lemma_only(x, level, i);
                }
            }
        } else {
            assert(v.best->0.tombstone);
            assert(v.best != w.best);
            if v.best != acc.best {
                let x = choose|x: int|
                    0 <= x < ts.len() && first_at(tab_recs(c, #[trigger] ts[x], d), key, view)
                        == v.best;
                if ts[x].id != t.id {
                    assert(v.best->0.seq <= best_seq(w.best));
                    assert(v.best->0 == w.best->0);
                } else {
                    self.lemma_only(x, level, i);
                }
            } else {
                assert(v.best->0.seq <= best_seq(w.best));
                assert(v.best->0 == w.best->0);
            }
        }
    }

    /// An id names one table in reading order.
    proof fn lemma_only(&self, x: int, level: int, i: int)
        requires
            self.tidy(),
            0 <= x < read_order(self.man().levels).len(),
            at(self.man().levels, level, i),
            read_order(self.man().levels)[x].id == self.man().levels[level][i].id,
        ensures
            read_order(self.man().levels)[x] == self.man().levels[level][i],
    {
        reveal(Db::tidy);
        let levels = self.man().levels;
        let (l, y) = lemma_order_from(levels, x);
        lemma_order_pos(levels, l, y);
        assert(levels[l][y].id == levels[level][i].id);
    }

    /// The version that a read finds is one that the database holds.
    proof fn lemma_found_held(&self, key: Seq<u8>, view: u64, skip: Option<u32>)
        ensures
            ({
                let ts = read_order(self.man().levels);
                let acc = mem_acc(self.mem(), key, view);
                acc_over(acc, self.content(), ts, Self::dims(), key, view, skip).best matches Some(
                    e,
                ) ==> {
                    &&& self.has_version(e)
                    &&& e.key == key
                    &&& self.mem_has(e) || exists|l: int, i: int| #[trigger]
                        self.table_has(l, i, e) && skip != Some(self.man().levels[l][i].id)
                }
            }),
    {
        let levels = self.man().levels;
        let c = self.content();
        let d = Self::dims();
        let mem = self.mem();
        let ts = read_order(levels);
        let acc = mem_acc(mem, key, view);
        let v = acc_over(acc, c, ts, d, key, view, skip);
        lemma_acc_best(acc, c, ts, d, key, view, skip);
        if v.best is Some {
            let e = v.best->0;
            if v.best == acc.best {
                lemma_first_at(mem, key, view);
                let y = choose|y: int| #[trigger] is_hit(mem, key, view, y) && mem[y] == e;
                assert(mem[y] == e);
                assert(self.mem_has(e));
            } else {
                let x = choose|x: int|
                    0 <= x < ts.len() && skip != Some((#[trigger] ts[x]).id) && first_at(
                        tab_recs(c, ts[x], d),
                        key,
                        view,
                    ) == v.best;
                let recs = tab_recs(c, ts[x], d);
                lemma_first_at(recs, key, view);
                let y = choose|y: int| #[trigger] is_hit(recs, key, view, y) && recs[y] == e;
                assert(recs[y] == e);
                let (l, z) = super::place::lemma_read_order(levels, x);
                assert(self.table_has(l, z, e));
            }
        }
    }

    /// Archiving a table never brings a value back: where the test finds
    /// nothing to refuse, a key that a live view misses stays missed.
    pub proof fn law_archive_resurrects_nothing(
        a: &Self,
        b: &Self,
        level: int,
        i: int,
        key: Seq<u8>,
        view: u64,
    )
        requires
            a.wf(),
            a.sound(),
            a.versions_agree(),
            at(a.man().levels, level, i),
            Self::archived(a, b, level, i, Ok::<bool, Error<D::Error>>(true)),
            !a.would_resurrect(a.man().levels[level][i]),
            a.is_view(view),
            a.value_at(key, view, 0) is None,
        ensures
            b.value_at(key, view, 0) is None,
    {
        let levels = a.man().levels;
        let t = levels[level][i];
        let c = a.content();
        let d = Self::dims();
        Self::law_archive_reads(a, b, level, i, key, view, 0);
        if b.value_at(key, view, 0) is Some {
            assert(a.flips(key, view, t.id));
            a.lemma_without_table(key, view, level, i);
            a.lemma_found_held(key, view, Some(t.id));
            let recs = tab_recs(c, t, d);
            let rs = tab_rdels(c, t, d);
            let ts = read_order(levels);
            let acc = mem_acc(a.mem(), key, view);
            let e = acc_over(acc, c, ts, d, key, view, Some(t.id)).best->0;
            lemma_first_at(recs, key, view);
            if first_at(recs, key, view) is Some && first_at(recs, key, view)->0.tombstone {
                let f = first_at(recs, key, view)->0;
                let y = choose|y: int| #[trigger] is_hit(recs, key, view, y) && recs[y] == f;
                assert(recs[y].tombstone);
                assert(a.flips_in_view(recs[y].key, recs[y].seq, t.id));
                assert(a.point_revives(t));
            } else {
                lemma_cover_of(rs, key, view);
                let q = cover_of(rs, key, view)->0;
                let z = a.lemma_covering(rs, key, view);
                let r = rs[z];
                if a.mem_has(e) {
                    let y = choose|y: int| 0 <= y < a.mem().len() && a.mem()[y] == e;
                    assert(a.mem()[y] == e);
                    assert(a.flips_in_view(a.mem()[y].key, r.seq, t.id));
                    assert(a.mem_revives(t.id, r));
                } else {
                    let (l, x) = choose|l: int, x: int| #[trigger]
                        a.table_has(l, x, e) && Some(t.id) != Some(a.man().levels[l][x].id);
                    a.lemma_key_inside(l, x, e);
                    let u = levels[l][x];
                    lemma_shares(u, r.start, r.end, key);
                    assert(a.others_overlap(t.id, r));
                }
                assert(a.rdel_revives(t.id, rs[z]));
                assert(a.some_revives(t.id, rs));
            }
        }
    }

    /// The tombstone that gives the covering sequence.
    proof fn lemma_covering(
        &self,
        rs: Seq<crate::sstable::format::RdelV>,
        key: Seq<u8>,
        view: u64,
    ) -> (z: int)
        requires
            cover_of(rs, key, view) is Some,
        ensures
            0 <= z < rs.len(),
            crate::bytes::lex_le(rs[z].start, key),
            crate::bytes::lex_lt(key, rs[z].end),
            rs[z].seq <= view,
    {
        lemma_cover_of(rs, key, view);
        choose|z: int|
            0 <= z < rs.len() && crate::bytes::lex_le((#[trigger] rs[z]).start, key)
                && crate::bytes::lex_lt(key, rs[z].end) && rs[z].seq <= view
    }

    /// A version lies within its table's bounds.
    proof fn lemma_key_inside(&self, l: int, x: int, e: Rec)
        requires
            self.sound(),
            self.table_has(l, x, e),
        ensures
            crate::manifest::tab_covers(self.man().levels[l][x], e.key),
    {
        let t = self.man().levels[l][x];
        let recs = tab_recs(self.content(), t, Self::dims());
        assert(super::view::tab_sound(self.content(), t, Self::dims()));
        assert(is_run_of(
            tab_run(self.content(), t, Self::dims()),
            self.content(),
            t,
            Self::dims(),
        ));
        let g = choose|g: int| 0 <= g < recs.len() && recs[g] == e;
        assert(super::view::rec_inside(t, recs[g]));
    }
}

/// A table and a range that share a key overlap.
proof fn lemma_shares(u: TabV, start: Seq<u8>, end: Seq<u8>, key: Seq<u8>)
    requires
        crate::manifest::tab_covers(u, key),
        crate::bytes::lex_le(start, key),
        crate::bytes::lex_lt(key, end),
    ensures
        overlap(u.first_key, u.last_key, start, end),
{
    crate::bytes::lemma_lex_le_lt(u.first_key, key, end);
    crate::bytes::lemma_lex_asymmetric(u.first_key, end);
    crate::bytes::lemma_lex_le_le(start, key, u.last_key);
}

} // verus!

//! What the database holds, and what a read of it finds.

use vstd::prelude::*;

use crate::bytes::{lemma_lex_irreflexive, lemma_lex_le_le, lemma_lex_lt_le, lex_le, lex_lt};
use crate::compact::cursor::recs_within;
use crate::compact::rdel_merge::{cover_of, lemma_cover_of, rdels_within, rle, rsorted};
use crate::compact::sift::{first_at, lemma_first_at};
use crate::device::same_blocks;
use crate::manifest::tab_covers;
use crate::manifest_format::TabV;
use crate::memtable::{
    covers_at, is_cover, is_hit, key_sorted, runs_newest_first, visible_version, Rec,
};
use crate::sstable::capacity::{points_of, rdels_of};
use crate::sstable::format::{is_data_block, rdel_block, RdelV};
use crate::sstable::table::{law_section_reads_back, law_table_reads_back, rdel_covers, RunV};

verus! {

/// The sizes that tables are made for.
pub struct DimsV {
    pub block: int,
    pub bloom: int,
    pub key_max: usize,
    pub val_max: usize,
}

/// The entry lies within the table's bounds.
pub open spec fn rec_inside(t: TabV, e: Rec) -> bool {
    tab_covers(t, e.key) && t.min_seq <= e.seq <= t.max_seq
}

/// The tombstone lies within the table's bounds.
pub open spec fn rdel_inside(t: TabV, r: RdelV) -> bool {
    &&& lex_le(t.first_key, r.start)
    &&& lex_le(r.end, t.last_key)
    &&& t.min_seq <= r.seq <= t.max_seq
}

/// The table that `t` refers to is on the device, as written: `run`.
pub open spec fn is_run_of(run: RunV, c: Map<u64, Seq<u8>>, t: TabV, d: DimsV) -> bool {
    &&& run.wf(d.block, d.bloom)
    &&& run.sorted()
    &&& run.on(c, d.block, d.bloom)
    &&& run.base == t.first_block
    &&& t.block_count == run.groups.len() + run.rgroups.len() + 3
    &&& t.rdel_blocks == run.rgroups.len()
    &&& t.entry_count == run.recs().len()
    &&& recs_within(run.recs(), d.key_max, d.val_max)
    &&& rdels_within(run.rdels(), d.key_max)
    &&& rsorted(run.rdels())
    &&& forall|g: int| 0 <= g < run.recs().len() ==> rec_inside(t, #[trigger] run.recs()[g])
    &&& forall|j: int| 0 <= j < run.rdels().len() ==> rdel_inside(t, #[trigger] run.rdels()[j])
}

/// The table that `t` refers to is intact.
pub open spec fn tab_sound(c: Map<u64, Seq<u8>>, t: TabV, d: DimsV) -> bool {
    exists|run: RunV| is_run_of(run, c, t, d)
}

/// The table that `t` refers to.
pub open spec fn tab_run(c: Map<u64, Seq<u8>>, t: TabV, d: DimsV) -> RunV {
    choose|run: RunV| is_run_of(run, c, t, d)
}

/// The entries of a table.
pub open spec fn tab_recs(c: Map<u64, Seq<u8>>, t: TabV, d: DimsV) -> Seq<Rec> {
    tab_run(c, t, d).recs()
}

/// The range tombstones of a table.
pub open spec fn tab_rdels(c: Map<u64, Seq<u8>>, t: TabV, d: DimsV) -> Seq<RdelV> {
    tab_run(c, t, d).rdels()
}

/// A run stays where its blocks stay.
pub proof fn lemma_run_kept(
    run: RunV,
    c0: Map<u64, Seq<u8>>,
    c1: Map<u64, Seq<u8>>,
    t: TabV,
    d: DimsV,
)
    requires
        is_run_of(run, c0, t, d),
        same_blocks(c0, c1, t.first_block as int, t.first_block + t.block_count),
    ensures
        is_run_of(run, c1, t, d),
{
    let nd = run.groups.len() as int;
    let nr = run.rgroups.len() as int;
    assert forall|b: int| 0 <= b < nd implies is_data_block(
        c1[(run.base + b) as u64],
        #[trigger] run.groups[b],
        d.block,
    ) by {
        assert(is_data_block(c0[(run.base + b) as u64], run.groups[b], d.block));
        assert(c0[(run.base + b) as u64] == c1[(run.base + b) as u64]);
    }
    assert forall|j: int| 0 <= j < nr implies c1[(run.rdel_at() + j) as u64] == rdel_block(
        #[trigger] run.rgroups[j],
        d.block,
    ) by {
        assert(c0[(run.rdel_at() + j) as u64] == rdel_block(run.rgroups[j], d.block));
        assert(c0[(run.rdel_at() + j) as u64] == c1[(run.rdel_at() + j) as u64]);
    }
    assert(c0[run.bloom_at() as u64] == c1[run.bloom_at() as u64]);
    assert(c0[(run.bloom_at() + 1) as u64] == c1[(run.bloom_at() + 1) as u64]);
    assert(c0[run.footer_at() as u64] == c1[run.footer_at() as u64]);
    assert(run.meta_on(c1, d.block, d.bloom));
}

/// The entries and tombstones of a table are those of any run that it is.
pub proof fn lemma_run_unique(
    a: RunV,
    b: RunV,
    c: Map<u64, Seq<u8>>,
    t: TabV,
    d: DimsV,
)
    requires
        is_run_of(a, c, t, d),
        is_run_of(b, c, t, d),
    ensures
        a.recs() == b.recs(),
        a.rdels() == b.rdels(),
{
    law_table_reads_back(a, c, d.block, d.bloom);
    law_table_reads_back(b, c, d.block, d.bloom);
    assert(a.groups.len() == b.groups.len());
    assert(a.foot().index_block == b.foot().index_block);
    law_section_reads_back(c, a.rdel_at() as u64, a.rgroups, d.block);
    law_section_reads_back(c, b.rdel_at() as u64, b.rgroups, d.block);
}

/// A table whose blocks stay keeps its entries and tombstones.
pub proof fn lemma_tab_kept(c0: Map<u64, Seq<u8>>, c1: Map<u64, Seq<u8>>, t: TabV, d: DimsV)
    requires
        tab_sound(c0, t, d),
        same_blocks(c0, c1, t.first_block as int, t.first_block + t.block_count),
    ensures
        tab_sound(c1, t, d),
        tab_recs(c1, t, d) == tab_recs(c0, t, d),
        tab_rdels(c1, t, d) == tab_rdels(c0, t, d),
{
    let a = tab_run(c0, t, d);
    lemma_run_kept(a, c0, c1, t, d);
    lemma_run_unique(a, tab_run(c1, t, d), c1, t, d);
}

/// A run gives the entries and tombstones of its table.
pub proof fn lemma_tab_is(run: RunV, c: Map<u64, Seq<u8>>, t: TabV, d: DimsV)
    requires
        is_run_of(run, c, t, d),
    ensures
        tab_sound(c, t, d),
        tab_recs(c, t, d) == run.recs(),
        tab_rdels(c, t, d) == run.rdels(),
{
    lemma_run_unique(run, tab_run(c, t, d), c, t, d);
}

// ---------------------------------------------------------------------
// What a point read finds.

/// What a read has found so far: the newest version, and the highest
/// sequence of a covering range tombstone (0 without one).
#[verifier::ext_equal]
pub struct AccV {
    pub best: Option<Rec>,
    pub cover: u64,
}

/// Sequence of the newest version, 0 without one.
pub open spec fn best_seq(b: Option<Rec>) -> u64 {
    match b {
        Some(e) => e.seq,
        None => 0,
    }
}

/// The newer of the best version so far and another.
pub open spec fn newer(b: Option<Rec>, e: Option<Rec>) -> Option<Rec> {
    match e {
        Some(x) => if x.seq > best_seq(b) {
            e
        } else {
            b
        },
        None => b,
    }
}

/// The higher of a covering sequence and another.
pub open spec fn raised(cover: u64, q: Option<u64>) -> u64 {
    match q {
        Some(x) => if x > cover {
            x
        } else {
            cover
        },
        None => cover,
    }
}

/// What a read of `key` at `max_seq` finds in the memtable.
pub open spec fn mem_acc(mem: Seq<Rec>, key: Seq<u8>, max_seq: u64) -> AccV {
    AccV {
        best: first_at(mem, key, max_seq),
        cover: raised(0, cover_of(rdels_of(mem), key, max_seq)),
    }
}

/// What the read has found after entries and tombstones of one more table.
pub open spec fn acc_with(
    a: AccV,
    recs: Seq<Rec>,
    rdels: Seq<RdelV>,
    key: Seq<u8>,
    max_seq: u64,
) -> AccV {
    AccV {
        best: newer(a.best, first_at(recs, key, max_seq)),
        cover: raised(a.cover, cover_of(rdels, key, max_seq)),
    }
}

/// What the read has found after the tables, but for the one with id `skip`.
pub open spec fn acc_over(
    a: AccV,
    c: Map<u64, Seq<u8>>,
    ts: Seq<TabV>,
    d: DimsV,
    key: Seq<u8>,
    max_seq: u64,
    skip: Option<u32>,
) -> AccV
    decreases ts.len(),
{
    if ts.len() == 0 {
        a
    } else {
        let b = acc_over(a, c, ts.drop_last(), d, key, max_seq, skip);
        let t = ts.last();
        if skip == Some(t.id) {
            b
        } else {
            acc_with(b, tab_recs(c, t, d), tab_rdels(c, t, d), key, max_seq)
        }
    }
}

/// The tables in the order a read takes them: level 0 newest first, then
/// deeper levels in order.
pub open spec fn read_order(levels: Seq<Seq<TabV>>) -> Seq<TabV>
    decreases levels.len(),
{
    if levels.len() == 0 {
        Seq::empty()
    } else if levels.len() == 1 {
        levels[0].reverse()
    } else {
        read_order(levels.drop_last()) + levels.last()
    }
}

/// The value that a read at tick `now` returns: none when nothing or a
/// deletion was found, a newer range tombstone covers it, or it expired.
pub open spec fn read_out(a: AccV, now: u64) -> Option<Seq<u8>> {
    match a.best {
        None => None,
        Some(e) => if e.tombstone || a.cover > e.seq || (e.expire_at != 0 && e.expire_at <= now) {
            None
        } else {
            Some(e.val)
        },
    }
}

/// What a read of `key` at `max_seq` and tick `now` returns, given the
/// memtable and the tables.
pub open spec fn read_spec(
    mem: Seq<Rec>,
    c: Map<u64, Seq<u8>>,
    levels: Seq<Seq<TabV>>,
    d: DimsV,
    key: Seq<u8>,
    max_seq: u64,
    now: u64,
    skip: Option<u32>,
) -> Option<Seq<u8>> {
    read_out(
        acc_over(mem_acc(mem, key, max_seq), c, read_order(levels), d, key, max_seq, skip),
        now,
    )
}

/// Nothing of a table is found for a key outside its bounds.
pub proof fn lemma_outside_bounds(
    c: Map<u64, Seq<u8>>,
    t: TabV,
    d: DimsV,
    key: Seq<u8>,
    max_seq: u64,
)
    requires
        tab_sound(c, t, d),
        !tab_covers(t, key),
    ensures
        first_at(tab_recs(c, t, d), key, max_seq) is None,
        cover_of(tab_rdels(c, t, d), key, max_seq) is None,
{
    let recs = tab_recs(c, t, d);
    let rs = tab_rdels(c, t, d);
    assert(is_run_of(tab_run(c, t, d), c, t, d));
    lemma_first_at(recs, key, max_seq);
    lemma_cover_of(rs, key, max_seq);
    if first_at(recs, key, max_seq) is Some {
        let i = choose|i: int| #[trigger] is_hit(recs, key, max_seq, i);
        assert(rec_inside(t, recs[i]));
    }
    if cover_of(rs, key, max_seq) is Some {
        let i = choose|i: int| #[trigger] rdel_covers(rs, key, max_seq, i);
        assert(rdel_inside(t, rs[i]));
        lemma_lex_le_le(t.first_key, rs[i].start, key);
        lemma_lex_lt_le(key, rs[i].end, t.last_key);
        lemma_lex_irreflexive(key);
        crate::bytes::lemma_lex_asymmetric(key, t.last_key);
    }
}

/// Nothing of a table is newer than its highest sequence.
pub proof fn lemma_below_top(c: Map<u64, Seq<u8>>, t: TabV, d: DimsV, key: Seq<u8>, max_seq: u64)
    requires
        tab_sound(c, t, d),
    ensures
        first_at(tab_recs(c, t, d), key, max_seq) matches Some(e) ==> e.seq <= t.max_seq,
        cover_of(tab_rdels(c, t, d), key, max_seq) matches Some(q) ==> q <= t.max_seq,
{
    let recs = tab_recs(c, t, d);
    let rs = tab_rdels(c, t, d);
    assert(is_run_of(tab_run(c, t, d), c, t, d));
    lemma_first_at(recs, key, max_seq);
    lemma_cover_of(rs, key, max_seq);
    if first_at(recs, key, max_seq) is Some {
        let i = choose|i: int| #[trigger]
            is_hit(recs, key, max_seq, i) && Some(recs[i]) == first_at(recs, key, max_seq);
        assert(rec_inside(t, recs[i]));
    }
    if cover_of(rs, key, max_seq) is Some {
        let i = choose|i: int| #[trigger]
            rdel_covers(rs, key, max_seq, i) && Some(rs[i].seq) == cover_of(rs, key, max_seq);
        assert(rdel_inside(t, rs[i]));
    }
}

/// Tombstone `j` of a memtable.
pub proof fn lemma_rdels_of_at(mem: Seq<Rec>, i: int) -> (j: int)
    requires
        0 <= i < mem.len(),
        mem[i].range_del,
        mem[i].val.len() > 0,
    ensures
        0 <= j < rdels_of(mem).len(),
        rdels_of(mem)[j] == (RdelV { start: mem[i].key, end: mem[i].val, seq: mem[i].seq }),
    decreases mem.len(),
{
    let d = mem.drop_last();
    if i == mem.len() - 1 {
        rdels_of(d).len() as int
    } else {
        assert(d[i] == mem[i]);
        lemma_rdels_of_at(d, i)
    }
}

/// Where tombstone `j` of a memtable stands in it.
pub proof fn lemma_rdels_of_from(mem: Seq<Rec>, j: int) -> (i: int)
    requires
        0 <= j < rdels_of(mem).len(),
    ensures
        0 <= i < mem.len(),
        mem[i].range_del,
        mem[i].val.len() > 0,
        rdels_of(mem)[j] == (RdelV { start: mem[i].key, end: mem[i].val, seq: mem[i].seq }),
    decreases mem.len(),
{
    let d = mem.drop_last();
    let n = rdels_of(d).len();
    if j == n {
        mem.len() - 1
    } else {
        assert(rdels_of(mem)[j] == rdels_of(d)[j]);
        let i = lemma_rdels_of_from(d, j);
        assert(d[i] == mem[i]);
        i
    }
}

/// The best covering tombstone of a memtable is that of its tombstones.
pub proof fn lemma_mem_cover(mem: Seq<Rec>, key: Seq<u8>, max_seq: u64, best: Option<u64>)
    requires
        is_cover(mem, key, max_seq, best),
    ensures
        cover_of(rdels_of(mem), key, max_seq) == best,
{
    let rs = rdels_of(mem);
    let q = cover_of(rs, key, max_seq);
    lemma_cover_of(rs, key, max_seq);
    assert forall|i: int| #[trigger] covers_at(mem, key, max_seq, i) implies exists|j: int| #[trigger]
        rdel_covers(rs, key, max_seq, j) && rs[j].seq == mem[i].seq by {
        if mem[i].val.len() == 0 {
            assert(!lex_lt(key, mem[i].val));
        }
        let j = lemma_rdels_of_at(mem, i);
        assert(rdel_covers(rs, key, max_seq, j));
    }
    assert forall|j: int| #[trigger] rdel_covers(rs, key, max_seq, j) implies exists|i: int| #[trigger]
        covers_at(mem, key, max_seq, i) && rs[j].seq == mem[i].seq by {
        let i = lemma_rdels_of_from(mem, j);
        assert(covers_at(mem, key, max_seq, i));
    }
    match best {
        Some(b) => {
            let i = choose|i: int| #[trigger] covers_at(mem, key, max_seq, i) && mem[i].seq == b;
            let j = choose|j: int| #[trigger]
                rdel_covers(rs, key, max_seq, j) && rs[j].seq == mem[i].seq;
            assert(q is Some);
            let j2 = choose|j2: int| #[trigger]
                rdel_covers(rs, key, max_seq, j2) && rs[j2].seq == q->0;
            let i2 = choose|i2: int| #[trigger]
                covers_at(mem, key, max_seq, i2) && rs[j2].seq == mem[i2].seq;
        },
        None => {
            if q is Some {
                let j2 = choose|j2: int| #[trigger]
                    rdel_covers(rs, key, max_seq, j2) && rs[j2].seq == q->0;
                let i2 = choose|i2: int| #[trigger]
                    covers_at(mem, key, max_seq, i2) && rs[j2].seq == mem[i2].seq;
            }
        },
    }
}

/// The tombstones of a sorted memtable are in merge order.
pub proof fn lemma_mem_rdels_sorted(mem: Seq<Rec>)
    requires
        key_sorted(mem),
        runs_newest_first(mem),
    ensures
        rsorted(rdels_of(mem)),
    decreases mem.len(),
{
    if mem.len() > 0 {
        let d = mem.drop_last();
        let n = mem.len() - 1;
        assert forall|x: int, y: int| 0 <= x <= y < d.len() implies #[trigger] lex_le(
            d[x].key,
            #[trigger] d[y].key,
        ) by {
            assert(lex_le(mem[x].key, mem[y].key));
        }
        assert forall|x: int, y: int|
            #![trigger d[x], d[y]]
            0 <= x < y < d.len() && d[x].key == d[y].key implies d[x].seq > d[y].seq by {
            assert(mem[x].key == mem[y].key);
        }
        lemma_mem_rdels_sorted(d);
        let rs = rdels_of(mem);
        let ds = rdels_of(d);
        assert forall|x: int, y: int| 0 <= x <= y < rs.len() implies #[trigger] rle(
            rs[x],
            rs[y],
        ) by {
            if y < ds.len() {
                assert(rle(ds[x], ds[y]));
            } else if x < ds.len() {
                assert(rs[x] == ds[x]);
                let i = lemma_rdels_of_from(d, x);
                assert(d[i] == mem[i]);
                assert(lex_le(mem[i].key, mem[n].key));
                crate::bytes::lemma_lex_total(mem[i].key, mem[n].key);
                if mem[i].key == mem[n].key {
                    assert(mem[i].seq > mem[n].seq);
                }
            }
        }
    }
}

/// The points of a memtable read as the memtable does.
pub proof fn lemma_points_read(mem: Seq<Rec>, key: Seq<u8>, max_seq: u64)
    ensures
        first_at(points_of(mem), key, max_seq) == first_at(mem, key, max_seq),
    decreases mem.len(),
{
    if mem.len() > 0 {
        let d = mem.drop_last();
        lemma_points_read(d, key, max_seq);
        lemma_first_push(d, mem.last(), key, max_seq);
        assert(d.push(mem.last()) =~= mem);
        if !mem.last().range_del {
            lemma_first_push(points_of(d), mem.last(), key, max_seq);
        }
    }
}

/// The first visible version of one more entry.
pub proof fn lemma_first_push(v: Seq<Rec>, e: Rec, key: Seq<u8>, max_seq: u64)
    ensures
        first_at(v.push(e), key, max_seq) == (match first_at(v, key, max_seq) {
            Some(x) => Some(x),
            None => if visible_version(seq![e], key, max_seq, 0) {
                Some(e)
            } else {
                None
            },
        }),
    decreases v.len(),
{
    let w = v.push(e);
    if v.len() == 0 {
        assert(w =~= seq![e]);
        assert(w.skip(1) =~= Seq::<Rec>::empty());
        assert(visible_version(w, key, max_seq, 0) == visible_version(seq![e], key, max_seq, 0));
        reveal_with_fuel(first_at, 2);
    } else {
        assert(w.skip(1) =~= v.skip(1).push(e));
        assert(visible_version(w, key, max_seq, 0) == visible_version(v, key, max_seq, 0));
        lemma_first_push(v.skip(1), e, key, max_seq);
    }
}

/// Folding over two runs of tables.
pub proof fn lemma_acc_concat(
    a: AccV,
    c: Map<u64, Seq<u8>>,
    xs: Seq<TabV>,
    ys: Seq<TabV>,
    d: DimsV,
    key: Seq<u8>,
    max_seq: u64,
    skip: Option<u32>,
)
    ensures
        acc_over(a, c, xs + ys, d, key, max_seq, skip) == acc_over(
            acc_over(a, c, xs, d, key, max_seq, skip),
            c,
            ys,
            d,
            key,
            max_seq,
            skip,
        ),
    decreases ys.len(),
{
    if ys.len() == 0 {
        assert(xs + ys =~= xs);
    } else {
        lemma_acc_concat(a, c, xs, ys.drop_last(), d, key, max_seq, skip);
        assert((xs + ys).drop_last() =~= xs + ys.drop_last());
        assert((xs + ys).last() == ys.last());
    }
}

/// Tables whose blocks stay are read alike.
pub proof fn lemma_acc_kept(
    a: AccV,
    c0: Map<u64, Seq<u8>>,
    c1: Map<u64, Seq<u8>>,
    ts: Seq<TabV>,
    d: DimsV,
    key: Seq<u8>,
    max_seq: u64,
    skip: Option<u32>,
)
    requires
        forall|i: int|
            0 <= i < ts.len() ==> tab_sound(c0, #[trigger] ts[i], d) && same_blocks(
                c0,
                c1,
                ts[i].first_block as int,
                ts[i].first_block + ts[i].block_count,
            ),
    ensures
        acc_over(a, c1, ts, d, key, max_seq, skip) == acc_over(a, c0, ts, d, key, max_seq, skip),
    decreases ts.len(),
{
    if ts.len() > 0 {
        let n = ts.len() - 1;
        let xs = ts.drop_last();
        assert forall|i: int| 0 <= i < xs.len() implies tab_sound(c0, #[trigger] xs[i], d)
            && same_blocks(
            c0,
            c1,
            xs[i].first_block as int,
            xs[i].first_block + xs[i].block_count,
        ) by {
            assert(tab_sound(c0, ts[i], d));
        }
        lemma_acc_kept(a, c0, c1, xs, d, key, max_seq, skip);
        assert(tab_sound(c0, ts[n], d));
        lemma_tab_kept(c0, c1, ts[n], d);
    }
}

} // verus!

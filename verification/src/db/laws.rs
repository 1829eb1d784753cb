//! What writes do to reads.

use vstd::prelude::*;

use super::place::{lemma_read_order, lemma_tables_kept, lemma_top_flat};
use super::view::{
    acc_over, best_seq, lemma_acc_kept, lemma_below_top, mem_acc, read_order, read_out, tab_sound,
    AccV, DimsV,
};
use super::write::{
    applied, batch_recs, delete_rec, put_rec, range_delete_rec, ttl_rec,
};
use super::Db;
use crate::batch::BatchOpV;
use crate::bytes::{lex_le, lex_lt};
use crate::compact::rdel_merge::{cover_of, covered, lemma_cover_of, omax};
use crate::compact::sift::{first_at, lemma_first_at};
use crate::device::{same_blocks, BlockDevice};
use crate::error::Error;
use crate::manifest_format::TabV;
use crate::memtable::{
    is_hit, key_sorted, lemma_lower, lemma_top_bound, lower, top_seq, visible_version, with_rec, Rec,
};
use crate::sstable::capacity::rdels_of;
use crate::sstable::format::RdelV;
use crate::sstable::table::rdel_covers;
use crate::wal::{entry_of, Op, WalRec};

verus! {

// ---------------------------------------------------------------------
// One more memtable entry.

/// The first visible version among two runs of entries.
proof fn lemma_first_concat(v: Seq<Rec>, w: Seq<Rec>, key: Seq<u8>, max_seq: u64)
    ensures
        first_at(v + w, key, max_seq) == (match first_at(v, key, max_seq) {
            Some(x) => Some(x),
            None => first_at(w, key, max_seq),
        }),
    decreases v.len(),
{
    let u = v + w;
    if v.len() == 0 {
        assert(u =~= w);
    } else {
        assert(u.skip(1) =~= v.skip(1) + w);
        lemma_first_concat(v.skip(1), w, key, max_seq);
        assert(visible_version(u, key, max_seq, 0) == visible_version(v, key, max_seq, 0));
    }
}

/// A new entry leads the versions of its key.
proof fn lemma_first_with(mem: Seq<Rec>, e: Rec, key: Seq<u8>, max_seq: u64)
    requires
        key_sorted(mem),
    ensures
        first_at(with_rec(mem, e), key, max_seq) == (if e.key == key && !e.range_del && e.seq
            <= max_seq {
            Some(e)
        } else {
            first_at(mem, key, max_seq)
        }),
{
    let p = lower(mem, e.key);
    lemma_lower(mem, e.key);
    let x = mem.take(p);
    let y = mem.skip(p);
    let w = with_rec(mem, e);
    assert(w =~= x + (seq![e] + y));
    assert(mem =~= x + y);
    lemma_first_concat(x, seq![e] + y, key, max_seq);
    lemma_first_concat(seq![e], y, key, max_seq);
    lemma_first_concat(x, y, key, max_seq);
    assert(first_at(seq![e], key, max_seq) == (if visible_version(seq![e], key, max_seq, 0) {
        Some(e)
    } else {
        None
    })) by {
        reveal_with_fuel(first_at, 2);
        assert(seq![e].skip(1) =~= Seq::<Rec>::empty());
    }
    if e.key == key {
        lemma_first_at(x, key, max_seq);
        if first_at(x, key, max_seq) is Some {
            let i = choose|i: int| #[trigger] is_hit(x, key, max_seq, i);
            assert(lex_lt(mem[i].key, e.key));
            crate::bytes::lemma_lex_irreflexive(key);
        }
    }
}

/// The best cover among two runs of tombstones.
proof fn lemma_cover_concat(a: Seq<RdelV>, b: Seq<RdelV>, key: Seq<u8>, max_seq: u64)
    ensures
        cover_of(a + b, key, max_seq) == omax(
            cover_of(a, key, max_seq),
            cover_of(b, key, max_seq),
        ),
    decreases a.len(),
{
    if a.len() == 0 {
        assert(a + b =~= b);
    } else {
        assert((a + b).skip(1) =~= a.skip(1) + b);
        lemma_cover_concat(a.skip(1), b, key, max_seq);
    }
}

/// The tombstones of two runs of entries.
proof fn lemma_rdels_concat(v: Seq<Rec>, w: Seq<Rec>)
    ensures
        rdels_of(v + w) == rdels_of(v) + rdels_of(w),
    decreases w.len(),
{
    if w.len() == 0 {
        assert(v + w =~= v);
        assert(rdels_of(v) + rdels_of(w) =~= rdels_of(v));
    } else {
        assert((v + w).drop_last() =~= v + w.drop_last());
        assert((v + w).last() == w.last());
        lemma_rdels_concat(v, w.drop_last());
        assert(rdels_of(v + w) =~= rdels_of(v) + rdels_of(w));
    }
}

/// What a new entry adds to the covers.
spec fn covers_with(e: Rec, key: Seq<u8>, max_seq: u64) -> Option<u64> {
    if e.range_del && e.val.len() > 0 {
        covered(RdelV { start: e.key, end: e.val, seq: e.seq }, key, max_seq)
    } else {
        None
    }
}

proof fn lemma_cover_with(mem: Seq<Rec>, e: Rec, key: Seq<u8>, max_seq: u64)
    requires
        key_sorted(mem),
    ensures
        cover_of(rdels_of(with_rec(mem, e)), key, max_seq) == omax(
            covers_with(e, key, max_seq),
            cover_of(rdels_of(mem), key, max_seq),
        ),
{
    let p = lower(mem, e.key);
    lemma_lower(mem, e.key);
    let x = mem.take(p);
    let y = mem.skip(p);
    assert(with_rec(mem, e) =~= (x + seq![e]) + y);
    assert(mem =~= x + y);
    lemma_rdels_concat(x + seq![e], y);
    lemma_rdels_concat(x, seq![e]);
    lemma_rdels_concat(x, y);
    let one = rdels_of(seq![e]);
    assert(seq![e].drop_last() =~= Seq::<Rec>::empty());
    assert(rdels_of(Seq::<Rec>::empty()) =~= Seq::<RdelV>::empty());
    lemma_cover_concat(rdels_of(x) + one, rdels_of(y), key, max_seq);
    lemma_cover_concat(rdels_of(x), one, key, max_seq);
    lemma_cover_concat(rdels_of(x), rdels_of(y), key, max_seq);
    assert(cover_of(one, key, max_seq) == covers_with(e, key, max_seq)) by {
        reveal_with_fuel(rdels_of, 2);
        reveal_with_fuel(cover_of, 2);
        if e.range_del && e.val.len() > 0 {
            let r = RdelV { start: e.key, end: e.val, seq: e.seq };
            assert(one =~= seq![r]);
            assert(one.skip(1) =~= Seq::<RdelV>::empty());
        } else {
            assert(one =~= Seq::<RdelV>::empty());
        }
    }
}

/// Versions and covers found in a memtable are at most its highest
/// sequence.
proof fn lemma_mem_below(mem: Seq<Rec>, key: Seq<u8>, max_seq: u64)
    ensures
        best_seq(first_at(mem, key, max_seq)) <= top_seq(mem),
        cover_of(rdels_of(mem), key, max_seq) matches Some(q) ==> q <= top_seq(mem),
{
    lemma_first_at(mem, key, max_seq);
    if first_at(mem, key, max_seq) is Some {
        let i = choose|i: int| #[trigger]
            is_hit(mem, key, max_seq, i) && Some(mem[i]) == first_at(mem, key, max_seq);
        lemma_top_bound(mem, i);
    }
    let rs = rdels_of(mem);
    lemma_cover_of(rs, key, max_seq);
    if cover_of(rs, key, max_seq) is Some {
        let j = choose|j: int| #[trigger]
            rdel_covers(rs, key, max_seq, j) && Some(rs[j].seq) == cover_of(rs, key, max_seq);
        let i = super::view::lemma_rdels_of_from(mem, j);
        lemma_top_bound(mem, i);
    }
}

/// Tables with sequences up to `m` add nothing newer than `m`.
proof fn lemma_acc_cap(
    a: AccV,
    c: Map<u64, Seq<u8>>,
    ts: Seq<TabV>,
    d: DimsV,
    key: Seq<u8>,
    max_seq: u64,
    m: u64,
)
    requires
        forall|i: int|
            0 <= i < ts.len() ==> tab_sound(c, #[trigger] ts[i], d) && ts[i].max_seq <= m,
    ensures
        ({
            let r = acc_over(a, c, ts, d, key, max_seq, None);
            &&& best_seq(a.best) >= m ==> r.best == a.best
            &&& best_seq(r.best) <= m || r.best == a.best
            &&& a.cover <= r.cover
            &&& r.cover <= m || r.cover == a.cover
        }),
    decreases ts.len(),
{
    if ts.len() > 0 {
        let n = ts.len() - 1;
        let xs = ts.drop_last();
        assert forall|i: int| 0 <= i < xs.len() implies tab_sound(c, #[trigger] xs[i], d)
            && xs[i].max_seq <= m by {
            assert(tab_sound(c, ts[i], d));
        }
        lemma_acc_cap(a, c, xs, d, key, max_seq, m);
        assert(tab_sound(c, ts[n], d));
        lemma_below_top(c, ts[n], d, key, max_seq);
    }
}

impl<
    D: BlockDevice,
    const BLOCK: usize,
    const KEY_MAX: usize,
    const VAL_MAX: usize,
    const CAP: usize,
    const ARENA: usize,
    const LEVELS: usize,
    const TABLES: usize,
    const BLOOM_BYTES: usize,
    const CACHE: usize,
> Db<D, BLOCK, KEY_MAX, VAL_MAX, CAP, ARENA, LEVELS, TABLES, BLOOM_BYTES, CACHE> {
    /// A read of `b`, whose memtable alone is newer than that of `a`.
    proof fn lemma_read_mem(a: &Self, b: &Self, key: Seq<u8>, max_seq: u64, now: u64)
        requires
            a.wf(),
            a.sound(),
            b.man() == a.man(),
            a.config().wal_start <= a.wal_next(),
            b.content() == a.content() || (a.wal_next() < a.config().wal_end && b.content()
                == a.content().insert(a.wal_next(), b.content()[a.wal_next()])),
        ensures
            ({
                let ro = read_order(a.man().levels);
                let d = Self::dims();
                let r = acc_over(
                    mem_acc(b.mem(), key, max_seq),
                    a.content(),
                    ro,
                    d,
                    key,
                    max_seq,
                    None,
                );
                let m0 = mem_acc(b.mem(), key, max_seq);
                let m = a.issued_seq();
                &&& b.value_at(key, max_seq, now) == read_out(r, now)
                &&& best_seq(m0.best) >= m ==> r.best == m0.best
                &&& best_seq(r.best) <= m || r.best == m0.best
                &&& m0.cover <= r.cover
                &&& r.cover <= m || r.cover == m0.cover
            }),
    {
        reveal(Db::tidy);
        let levels = a.man().levels;
        let ro = read_order(levels);
        let d = Self::dims();
        a.lemma_wf();
        if b.content() != a.content() {
            let w = a.wal_next();
            lemma_tables_kept(
                a.slot_map(),
                a.images(),
                a.content(),
                b.content(),
                levels,
                d,
                w as int,
                w + 1,
            );
        }
        lemma_top_flat(levels, a.issued_seq());
        assert forall|i: int| 0 <= i < ro.len() implies tab_sound(a.content(), #[trigger] ro[i], d)
            && ro[i].max_seq <= a.issued_seq() && same_blocks(
            a.content(),
            b.content(),
            ro[i].first_block as int,
            ro[i].first_block + ro[i].block_count,
        ) by {
            let (x, y) = lemma_read_order(levels, i);
            assert(tab_sound(a.content(), levels[x][y], d));
            assert(levels[x][y].max_seq <= a.issued_seq());
        }
        let m0 = mem_acc(b.mem(), key, max_seq);
        lemma_acc_kept(m0, a.content(), b.content(), ro, d, key, max_seq, None);
        lemma_acc_cap(m0, a.content(), ro, d, key, max_seq, a.issued_seq());
    }

    /// A stored value reads back: at every snapshot from the write on, a
    /// read of the key gives the value.
    pub proof fn law_put_then_get(
        a: &Self,
        b: &Self,
        key: Seq<u8>,
        val: Seq<u8>,
        seq: u64,
        max_seq: u64,
        now: u64,
    )
        requires
            a.wf(),
            a.sound(),
            Self::wrote(a, b, put_rec(key, val), Ok(seq)),
            max_seq >= seq,
        ensures
            b.value_at(key, max_seq, now) == Some(val),
    {
        Self::law_ttl_then_get(a, b, key, val, 0, seq, max_seq, now);
    }

    /// A value with an expiry reads back until its tick, and as missing
    /// from its tick on, whatever older versions exist.
    pub proof fn law_ttl_then_get(
        a: &Self,
        b: &Self,
        key: Seq<u8>,
        val: Seq<u8>,
        expire_at: u64,
        seq: u64,
        max_seq: u64,
        now: u64,
    )
        requires
            a.wf(),
            a.sound(),
            Self::wrote(a, b, ttl_rec(key, val, expire_at), Ok(seq)),
            max_seq >= seq,
        ensures
            b.value_at(key, max_seq, now) == (if expire_at != 0 && expire_at <= now {
                None
            } else {
                Some(val)
            }),
    {
        a.lemma_wf();
        a.table.lemma_wf();
        let e = entry_of(WalRec { seq, ..ttl_rec(key, val, expire_at) });
        lemma_first_with(a.mem(), e, key, max_seq);
        lemma_cover_with(a.mem(), e, key, max_seq);
        lemma_mem_below(a.mem(), key, max_seq);
        Self::lemma_read_mem(a, b, key, max_seq, now);
    }

    /// A deleted key reads as missing from the delete on.
    pub proof fn law_delete_hides(
        a: &Self,
        b: &Self,
        key: Seq<u8>,
        seq: u64,
        max_seq: u64,
        now: u64,
    )
        requires
            a.wf(),
            a.sound(),
            Self::wrote(a, b, delete_rec(key), Ok(seq)),
            max_seq >= seq,
        ensures
            b.value_at(key, max_seq, now) is None,
    {
        a.lemma_wf();
        a.table.lemma_wf();
        let e = entry_of(WalRec { seq, ..delete_rec(key) });
        lemma_first_with(a.mem(), e, key, max_seq);
        lemma_mem_below(a.mem(), key, max_seq);
        Self::lemma_read_mem(a, b, key, max_seq, now);
    }

    /// Every key in a deleted range reads as missing from the delete on,
    /// and every key outside reads as before.
    pub proof fn law_delete_range_hides(
        a: &Self,
        b: &Self,
        start: Seq<u8>,
        end: Seq<u8>,
        seq: u64,
        key: Seq<u8>,
        max_seq: u64,
        now: u64,
    )
        requires
            a.wf(),
            a.sound(),
            Self::wrote(a, b, range_delete_rec(start, end), Ok(seq)),
            max_seq >= seq,
        ensures
            b.value_at(key, max_seq, now) == (if lex_le(start, key) && lex_lt(key, end) {
                None
            } else {
                a.value_at(key, max_seq, now)
            }),
    {
        a.lemma_wf();
        a.table.lemma_wf();
        let e = entry_of(WalRec { seq, ..range_delete_rec(start, end) });
        lemma_first_with(a.mem(), e, key, max_seq);
        lemma_cover_with(a.mem(), e, key, max_seq);
        lemma_mem_below(a.mem(), key, max_seq);
        Self::lemma_read_mem(a, b, key, max_seq, now);
        Self::lemma_read_mem(a, a, key, max_seq, now);
        if end.len() == 0 {
            assert(!lex_lt(key, end));
        }
    }

    /// A write of one key leaves every other key as it was.
    pub proof fn law_other_keys_stay(
        a: &Self,
        b: &Self,
        rec0: WalRec,
        seq: u64,
        key: Seq<u8>,
        max_seq: u64,
        now: u64,
    )
        requires
            a.wf(),
            a.sound(),
            Self::wrote(a, b, rec0, Ok(seq)),
            rec0.op != Op::RangeDelete,
            key != rec0.key,
        ensures
            b.value_at(key, max_seq, now) == a.value_at(key, max_seq, now),
    {
        a.lemma_wf();
        a.table.lemma_wf();
        let e = entry_of(WalRec { seq, ..rec0 });
        lemma_first_with(a.mem(), e, key, max_seq);
        lemma_cover_with(a.mem(), e, key, max_seq);
        Self::lemma_read_mem(a, b, key, max_seq, now);
        Self::lemma_read_mem(a, a, key, max_seq, now);
    }

    /// Snapshot isolation: a read at a watermark issued before the write
    /// gives what it gave before the write, whether the write succeeded or
    /// failed.
    pub proof fn law_snapshot_isolation(
        a: &Self,
        b: &Self,
        rec0: WalRec,
        r: Result<u64, Error<D::Error>>,
        key: Seq<u8>,
        max_seq: u64,
        now: u64,
    )
        requires
            a.wf(),
            a.sound(),
            Self::wrote(a, b, rec0, r),
            max_seq <= a.issued_seq(),
        ensures
            b.value_at(key, max_seq, now) == a.value_at(key, max_seq, now),
    {
        a.lemma_wf();
        a.table.lemma_wf();
        let seq = (a.issued_seq() + 1) as u64;
        let e = entry_of(WalRec { seq, ..rec0 });
        if r is Ok {
            lemma_first_with(a.mem(), e, key, max_seq);
            lemma_cover_with(a.mem(), e, key, max_seq);
        }
        Self::lemma_read_mem(a, b, key, max_seq, now);
        Self::lemma_read_mem(a, a, key, max_seq, now);
    }

    /// A write that failed changed no read.
    pub proof fn law_failed_write_unseen(
        a: &Self,
        b: &Self,
        rec0: WalRec,
        e: Error<D::Error>,
        key: Seq<u8>,
        max_seq: u64,
        now: u64,
    )
        requires
            a.wf(),
            a.sound(),
            Self::wrote(a, b, rec0, Err(e)),
        ensures
            b.value_at(key, max_seq, now) == a.value_at(key, max_seq, now),
    {
        a.lemma_wf();
        Self::lemma_read_mem(a, b, key, max_seq, now);
        Self::lemma_read_mem(a, a, key, max_seq, now);
    }

    /// A batch is seen op by op: at a sequence of the batch every key reads
    /// as its last op up to that sequence left it, and keys without one as
    /// before. From the batch's last sequence on the batch is seen whole.
    pub proof fn law_batch_then_get(
        a: &Self,
        b: &Self,
        ops: Seq<BatchOpV>,
        base: u64,
        key: Seq<u8>,
        max_seq: u64,
        now: u64,
    )
        requires
            a.wf(),
            a.sound(),
            ops.len() > 0,
            forall|i: int| 0 <= i < ops.len() ==> super::write::queued_ok(#[trigger] ops[i]),
            Self::wrote_batch(a, b, ops, Ok(base)),
            max_seq >= base,
        ensures
            max_seq >= base + ops.len() - 1 ==> seen_ops(ops, base, max_seq) == ops,
            b.value_at(key, max_seq, now) == (match last_op(seen_ops(ops, base, max_seq), key) {
                None => a.value_at(key, max_seq, now),
                Some(o) => if o.kind == Op::Put {
                    Some(o.val)
                } else {
                    None
                },
            }),
    {
        a.lemma_wf();
        a.table.lemma_wf();
        lemma_batch_mem(a.mem(), ops, base, key, max_seq, base as int);
        lemma_mem_below(a.mem(), key, max_seq);
        Self::lemma_read_mem(a, b, key, max_seq, now);
        Self::lemma_read_mem(a, a, key, max_seq, now);
    }

    /// A batch is seen whole or not at all: reads at a watermark issued
    /// before it, and every read after a refused one, give what they gave.
    pub proof fn law_batch_isolation(
        a: &Self,
        b: &Self,
        ops: Seq<BatchOpV>,
        r: Result<u64, Error<D::Error>>,
        key: Seq<u8>,
        max_seq: u64,
        now: u64,
    )
        requires
            a.wf(),
            a.sound(),
            forall|i: int| 0 <= i < ops.len() ==> super::write::queued_ok(#[trigger] ops[i]),
            Self::wrote_batch(a, b, ops, r),
            r is Err || max_seq <= a.issued_seq(),
        ensures
            b.value_at(key, max_seq, now) == a.value_at(key, max_seq, now),
    {
        a.lemma_wf();
        a.table.lemma_wf();
        if r is Ok && ops.len() > 0 {
            let base = (a.issued_seq() + 1) as u64;
            lemma_batch_unseen(a.mem(), ops, base, key, max_seq);
        }
        Self::lemma_read_mem(a, b, key, max_seq, now);
        Self::lemma_read_mem(a, a, key, max_seq, now);
    }
}

/// The ops of a batch from sequence `base` on that a read at `max_seq` sees.
pub open spec fn seen_ops(ops: Seq<BatchOpV>, base: u64, max_seq: u64) -> Seq<BatchOpV> {
    if max_seq < base {
        Seq::empty()
    } else if max_seq - base + 1 >= ops.len() {
        ops
    } else {
        ops.take(max_seq - base + 1)
    }
}

/// The last op of a batch for a key.
pub open spec fn last_op(ops: Seq<BatchOpV>, key: Seq<u8>) -> Option<BatchOpV>
    decreases ops.len(),
{
    if ops.len() == 0 {
        None
    } else if ops.last().key == key {
        Some(ops.last())
    } else {
        last_op(ops.drop_last(), key)
    }
}

/// What a batch does to the memtable's versions of a key.
proof fn lemma_batch_mem(
    mem: Seq<Rec>,
    ops: Seq<BatchOpV>,
    base: u64,
    key: Seq<u8>,
    max_seq: u64,
    low: int,
)
    requires
        key_sorted(mem),
        base <= max_seq,
        base + ops.len() - 1 <= u64::MAX,
        forall|i: int| 0 <= i < ops.len() ==> super::write::queued_ok(#[trigger] ops[i]),
        low <= base,
    ensures
        ({
            let w = applied(mem, batch_recs(ops, base));
            &&& key_sorted(w)
            &&& cover_of(rdels_of(w), key, max_seq) == cover_of(rdels_of(mem), key, max_seq)
            &&& match last_op(seen_ops(ops, base, max_seq), key) {
                None => first_at(w, key, max_seq) == first_at(mem, key, max_seq),
                Some(o) => {
                    &&& o.kind == Op::Put || o.kind == Op::Delete
                    &&& first_at(w, key, max_seq) matches Some(e) && {
                        &&& e.seq >= low
                        &&& e.tombstone == (o.kind == Op::Delete)
                        &&& !e.tombstone ==> e.val == o.val
                        &&& e.expire_at == 0
                    }
                },
            }
        }),
    decreases ops.len(),
{
    let rs = batch_recs(ops, base);
    if ops.len() > 0 {
        let d = ops.drop_last();
        assert forall|i: int| 0 <= i < d.len() implies super::write::queued_ok(#[trigger] d[i]) by {
            assert(super::write::queued_ok(ops[i]));
        }
        lemma_batch_mem(mem, d, base, key, max_seq, low);
        if base + ops.len() - 1 > max_seq {
            assert(seen_ops(ops, base, max_seq) =~= seen_ops(d, base, max_seq));
        } else {
            assert(seen_ops(d, base, max_seq) =~= d);
        }
        assert(rs.drop_last() =~= batch_recs(d, base));
        let v = applied(mem, rs.drop_last());
        let e = entry_of(rs.last());
        assert(super::write::queued_ok(ops[ops.len() - 1]));
        crate::memtable::law_with_rec_keeps_order(v, e);
        lemma_first_with(v, e, key, max_seq);
        lemma_cover_with(v, e, key, max_seq);
    }
}

/// Nothing of a batch is seen below its sequences.
proof fn lemma_batch_unseen(
    mem: Seq<Rec>,
    ops: Seq<BatchOpV>,
    base: u64,
    key: Seq<u8>,
    max_seq: u64,
)
    requires
        key_sorted(mem),
        max_seq < base,
        base + ops.len() - 1 <= u64::MAX,
        forall|i: int| 0 <= i < ops.len() ==> super::write::queued_ok(#[trigger] ops[i]),
    ensures
        ({
            let w = applied(mem, batch_recs(ops, base));
            &&& key_sorted(w)
            &&& cover_of(rdels_of(w), key, max_seq) == cover_of(rdels_of(mem), key, max_seq)
            &&& first_at(w, key, max_seq) == first_at(mem, key, max_seq)
        }),
    decreases ops.len(),
{
    let rs = batch_recs(ops, base);
    if ops.len() > 0 {
        let d = ops.drop_last();
        assert forall|i: int| 0 <= i < d.len() implies super::write::queued_ok(#[trigger] d[i]) by {
            assert(super::write::queued_ok(ops[i]));
        }
        lemma_batch_unseen(mem, d, base, key, max_seq);
        assert(rs.drop_last() =~= batch_recs(d, base));
        let v = applied(mem, rs.drop_last());
        let e = entry_of(rs.last());
        assert(super::write::queued_ok(ops[ops.len() - 1]));
        crate::memtable::law_with_rec_keeps_order(v, e);
        lemma_first_with(v, e, key, max_seq);
        lemma_cover_with(v, e, key, max_seq);
    }
}

} // verus!

//! When a table can be written: what fits a block, and what fits the index.

use vstd::prelude::*;

use super::capacity::flush_bound;
use super::format::{
    ent_len, ents_len, entry_fits, idx_bytes, index_bytes, rdels_len, stored, RdelV,
};
use super::rdel::{rdel_check, rpack};
use super::writer::{
    law_plan_matches_writer, pack, pack_check, packed_with, push_plan, size_check, write_run,
    PushPlan,
};
use crate::bytes::lemma_le_bytes_len;
use crate::error::Error;
use crate::memtable::Rec;

verus! {

/// What an entry takes of a data block: a header of 13 bytes, its key, its
/// value unless it is deleted, and 8 bytes for an expiry.
pub proof fn law_entry_takes(e: Rec)
    ensures
        ent_len(stored(e)) == 13 + e.key.len() + (if e.tombstone {
            0
        } else if e.expire_at != 0 {
            e.val.len() + 8
        } else {
            e.val.len()
        }),
{
}

/// The entries of a block take what each takes.
pub proof fn law_entries_take(es: Seq<Rec>, e: Rec)
    ensures
        ents_len(Seq::empty()) == 0,
        ents_len(es.push(e)) == ents_len(es) + ent_len(e),
{
    assert(es.push(e).drop_last() =~= es);
}

/// An index entry takes 18 bytes and the first key of its block.
pub proof fn law_index_takes(groups: Seq<Seq<Rec>>, base: u64, n: int)
    requires
        0 <= n < groups.len(),
    ensures
        index_bytes(groups, base, 0).len() == 0,
        index_bytes(groups, base, n + 1).len() == index_bytes(groups, base, n).len() + 18
            + groups[n][0].key.len(),
{
    broadcast use lemma_le_bytes_len;

    reveal(idx_bytes);
}

/// The index entries of the first `n` blocks, in bytes.
spec fn idx_len(groups: Seq<Seq<Rec>>, n: int) -> nat
    decreases n,
{
    if n <= 0 {
        0
    } else {
        idx_len(groups, n - 1) + 18 + groups[n - 1][0].key.len()
    }
}

proof fn lemma_idx_len(groups: Seq<Seq<Rec>>, base: u64, n: int)
    requires
        0 <= n <= groups.len(),
    ensures
        index_bytes(groups, base, n).len() == idx_len(groups, n),
    decreases n,
{
    if n > 0 {
        lemma_idx_len(groups, base, n - 1);
        law_index_takes(groups, base, n - 1);
    }
}

proof fn lemma_idx_mono(p: Seq<Seq<Rec>>, q: Seq<Seq<Rec>>, m: int, n: int)
    requires
        0 <= m <= n,
        m <= p.len(),
        n <= q.len(),
        forall|b: int| 0 <= b < m ==> (#[trigger] p[b])[0] == q[b][0],
    ensures
        idx_len(p, m) <= idx_len(q, n),
    decreases n,
{
    if m < n {
        lemma_idx_mono(p, q, m, n - 1);
    } else if m > 0 {
        lemma_idx_mono(p, q, m - 1, n - 1);
        assert(p[m - 1][0] == q[m - 1][0]);
    }
}

proof fn lemma_packed_step(gs: Seq<Seq<Rec>>, e: Rec, block: int)
    requires
        forall|b: int| 0 <= b < gs.len() ==> (#[trigger] gs[b]).len() > 0,
    ensures
        ({
            let hs = packed_with(gs, e, block);
            &&& gs.len() <= hs.len()
            &&& forall|b: int| 0 <= b < hs.len() ==> (#[trigger] hs[b]).len() > 0
            &&& forall|b: int| 0 <= b < gs.len() ==> (#[trigger] gs[b])[0] == hs[b][0]
        }),
{
}

/// The first blocks begin with the same entries, however many follow.
proof fn lemma_pack_prefix(es: Seq<Rec>, block: int, n: int)
    requires
        0 <= n <= es.len(),
    ensures
        ({
            let p = pack(es.take(n), block);
            let q = pack(es, block);
            &&& p.len() <= q.len()
            &&& forall|b: int| 0 <= b < p.len() ==> (#[trigger] p[b]).len() > 0
            &&& forall|b: int| 0 <= b < p.len() ==> (#[trigger] p[b])[0] == q[b][0]
        }),
    decreases es.len() - n,
{
    lemma_groups_filled(es.take(n), block);
    if n < es.len() {
        lemma_pack_prefix(es, block, n + 1);
        assert(es.take(n + 1).drop_last() =~= es.take(n));
        let p = pack(es.take(n), block);
        let m = pack(es.take(n + 1), block);
        let q = pack(es, block);
        lemma_packed_step(p, stored(es[n]), block);
        assert forall|b: int| 0 <= b < p.len() implies (#[trigger] p[b])[0] == q[b][0] by {
            assert(m[b][0] == q[b][0]);
        }
    } else {
        assert(es.take(n) =~= es);
    }
}

proof fn lemma_groups_filled(es: Seq<Rec>, block: int)
    ensures
        forall|b: int| 0 <= b < pack(es, block).len() ==> (#[trigger] pack(es, block)[b]).len() > 0,
    decreases es.len(),
{
    if es.len() > 0 {
        lemma_groups_filled(es.drop_last(), block);
        lemma_packed_step(pack(es.drop_last(), block), stored(es.last()), block);
    }
}

/// Entries pack whenever each one fits a block of its own: a key of 1 to
/// 65535 bytes, a value of at most 65535, and room for both, the entry's
/// header and expiry, and 8 bytes of block frame.
pub proof fn law_entries_pack<E>(es: Seq<Rec>, block: int)
    requires
        forall|i: int|
            0 <= i < es.len() ==> {
                let e = #[trigger] es[i];
                let vl: nat = if e.tombstone {
                    0
                } else {
                    e.val.len()
                };
                let ttl: nat = if !e.tombstone && e.expire_at != 0 {
                    8
                } else {
                    0
                };
                1 <= e.key.len() <= 0xFFFF && vl <= 0xFFFF && 13 + e.key.len() + vl + ttl + 8
                    <= block
            },
    ensures
        pack_check::<E>(es, block) == Ok::<(), Error<E>>(()),
    decreases es.len(),
{
    if es.len() > 0 {
        let d = es.drop_last();
        assert forall|i: int| 0 <= i < d.len() implies ({
            let e = #[trigger] d[i];
            let vl: nat = if e.tombstone {
                0
            } else {
                e.val.len()
            };
            let ttl: nat = if !e.tombstone && e.expire_at != 0 {
                8
            } else {
                0
            };
            1 <= e.key.len() <= 0xFFFF && vl <= 0xFFFF && 13 + e.key.len() + vl + ttl + 8 <= block
        }) by {
            assert(d[i] == es[i]);
        }
        law_entries_pack::<E>(d, block);
        assert(es[es.len() - 1] == es.last());
    }
}

/// A table is written whenever its entries pack, its blocks have ids and
/// keep within the limit, and the index, one entry per block, fits its
/// block.
pub proof fn law_table_writes<E>(
    base: u64,
    k: u8,
    limit: u64,
    es: Seq<Rec>,
    block: int,
    key_max: usize,
)
    requires
        block <= 0x1_0000,
        base + pack(es, block).len() <= u64::MAX,
        pack(es, block).len() <= limit,
        index_bytes(pack(es, block), base, pack(es, block).len() as int).len() <= block - 4,
        forall|i: int|
            0 <= i < es.len() ==> {
                let e = #[trigger] es[i];
                let vl: nat = if e.tombstone {
                    0
                } else {
                    e.val.len()
                };
                let ttl: nat = if !e.tombstone && e.expire_at != 0 {
                    8
                } else {
                    0
                };
                1 <= e.key.len() <= key_max && e.key.len() <= 0xFFFF && vl <= 0xFFFF && 13
                    + e.key.len() + vl + ttl + 8 <= block
            },
    ensures
        write_run::<E>(base, k, limit, es, block, key_max) matches Ok(v) && (v.cur.len() > 0
            ==> v.may_seal() && v.index_room(block)),
{
    let n = es.len() as int;
    lemma_writes::<E>(base, k, limit, es, block, key_max, n);
    assert(es.take(n) =~= es);
}

proof fn lemma_writes<E>(
    base: u64,
    k: u8,
    limit: u64,
    es: Seq<Rec>,
    block: int,
    key_max: usize,
    n: int,
)
    requires
        0 <= n <= es.len(),
        block <= 0x1_0000,
        base + pack(es, block).len() <= u64::MAX,
        pack(es, block).len() <= limit,
        index_bytes(pack(es, block), base, pack(es, block).len() as int).len() <= block - 4,
        forall|i: int|
            0 <= i < es.len() ==> size_check::<E>(#[trigger] es[i]) is Ok && es[i].key.len()
                <= key_max && entry_fits(0, 0, ent_len(stored(es[i])) as int, block),
    ensures
        write_run::<E>(base, k, limit, es.take(n), block, key_max) matches Ok(v) && (v.cur.len()
            > 0 ==> v.may_seal() && v.index_room(block)),
    decreases n,
{
    let q = pack(es, block);
    let s = es.take(n);
    lemma_idx_len(q, base, q.len() as int);
    if n > 0 {
        lemma_writes::<E>(base, k, limit, es, block, key_max, n - 1);
        assert(s.drop_last() =~= es.take(n - 1));
        let v = write_run::<E>(base, k, limit, es.take(n - 1), block, key_max)->Ok_0;
        let e = es[n - 1];
        assert(s.last() == e);
        assert(size_check::<E>(e) is Ok);
        law_plan_matches_writer::<E>(base, k, limit, es.take(n - 1), block, key_max);
        match push_plan::<E>(v, e, block, key_max) {
            PushPlan::Refuse(_) => {
                if v.cur.len() == 0 {
                    assert(ents_len(v.cur) == 0);
                }
            },
            _ => {},
        }
        law_plan_matches_writer::<E>(base, k, limit, s, block, key_max);
        let w = write_run::<E>(base, k, limit, s, block, key_max)->Ok_0;
        lemma_pack_prefix(es, block, n);
        let p = pack(s, block);
        assert(w.blocks() == p);
        lemma_idx_mono(p, q, p.len() as int, q.len() as int);
        if w.cur.len() > 0 {
            let g = w.groups.len() as int;
            assert(p.len() == g + 1);
            assert(p[g] == w.cur);
            lemma_idx_len(w.groups, base, g);
            lemma_idx_mono(w.groups, p, g, g);
        }
    }
}

/// Blocks are filled: an entry opens a new block only where it does not fit
/// the one before, beside the restart offsets, one per 16 entries, and 6
/// bytes of frame; a block takes 2048 entries.
pub proof fn law_blocks_are_filled(es: Seq<Rec>, block: int, b: int)
    requires
        0 <= b < pack(es, block).len() - 1,
    ensures
        ({
            let g = pack(es, block)[b];
            let next = pack(es, block)[b + 1];
            let n = g.len() as int;
            &&& g.len() > 0 && next.len() > 0
            &&& n >= 2048 || ents_len(g) + ent_len(next[0]) + 2 * (n / 16 + 1) + 6 > block
        }),
    decreases es.len(),
{
    lemma_groups_filled(es, block);
    let d = es.drop_last();
    let gs = pack(d, block);
    let hs = pack(es, block);
    lemma_groups_filled(d, block);
    if b < gs.len() - 1 {
        law_blocks_are_filled(d, block, b);
        assert(hs[b] == gs[b]);
        assert(hs[b + 1][0] == gs[b + 1][0]);
    } else {
        assert(hs[b] == gs[b]);
        assert(hs[b + 1] == seq![stored(es.last())]);
    }
}

/// A range tombstone takes its two keys and 12 bytes.
pub proof fn law_rdel_takes(rs: Seq<RdelV>, r: RdelV)
    ensures
        rdels_len(Seq::empty()) == 0,
        rdels_len(rs.push(r)) == rdels_len(rs) + 12 + r.start.len() + r.end.len(),
{
    assert(rs.push(r).drop_last() =~= rs);
}

/// A range tombstone is stored exactly where its keys are of 16-bit lengths
/// and it fits a block beside 6 bytes of frame.
pub proof fn law_rdel_accepted<E>(r: RdelV, block: int)
    ensures
        rdel_check::<E>(r, block) == Ok::<(), Error<E>>(()) <==> r.start.len() <= 0xFFFF
            && r.end.len() <= 0xFFFF && 18 + r.start.len() + r.end.len() <= block,
{
}

proof fn lemma_rgroups_filled(rs: Seq<RdelV>, block: int)
    ensures
        forall|b: int| 0 <= b < rpack(rs, block).len() ==> (#[trigger] rpack(rs, block)[b]).len() > 0,
    decreases rs.len(),
{
    if rs.len() > 0 {
        lemma_rgroups_filled(rs.drop_last(), block);
        let gs = rpack(rs.drop_last(), block);
        let hs = rpack(rs, block);
        assert forall|b: int| 0 <= b < hs.len() implies (#[trigger] hs[b]).len() > 0 by {
            if b < gs.len() - 1 {
                assert(hs[b] == gs[b]);
            }
        }
    }
}

/// Blocks of range tombstones are filled: a tombstone opens a new block
/// only where it does not fit the one before.
pub proof fn law_rdel_blocks_are_filled(rs: Seq<RdelV>, block: int, b: int)
    requires
        0 <= b < rpack(rs, block).len() - 1,
    ensures
        ({
            let g = rpack(rs, block)[b];
            let next = rpack(rs, block)[b + 1];
            &&& g.len() > 0 && next.len() > 0
            &&& rdels_len(g) + 12 + next[0].start.len() + next[0].end.len() + 6 > block
        }),
    decreases rs.len(),
{
    let d = rs.drop_last();
    let gs = rpack(d, block);
    let hs = rpack(rs, block);
    lemma_rgroups_filled(rs, block);
    lemma_rgroups_filled(d, block);
    if b < gs.len() - 1 {
        law_rdel_blocks_are_filled(d, block, b);
        assert(hs[b] == gs[b]);
        assert(hs[b + 1][0] == gs[b + 1][0]);
    } else {
        assert(hs[b] == gs[b]);
        assert(hs[b + 1] == seq![rs.last()]);
    }
}

/// A slot need not hold more than its memtable can fill: one block per
/// entry, or the blocks that the bytes fill but for the longest entry, with
/// two that may be part full, and three of frame.
pub proof fn law_flush_bound(
    block: int,
    cap: int,
    arena: int,
    key_max: int,
    val_max: int,
    points: int,
    ranges: int,
)
    requires
        0 <= cap,
        0 <= arena,
        0 <= key_max,
        0 <= val_max,
        26 + key_max + val_max < block <= 26 + key_max + val_max + 0x7800,
        17 + 2 * key_max < block,
        0 <= points,
        0 <= ranges,
        arena + 23 * cap < (points + 1) * (block - 26 - key_max - val_max),
        arena + 12 * cap < (ranges + 1) * (block - 17 - 2 * key_max),
    ensures
        flush_bound(block, cap, arena, key_max, val_max) <= cap + 3,
        flush_bound(block, cap, arena, key_max, val_max) <= points + ranges + 5,
{
    let f = block - 26 - key_max - val_max;
    let g = block - 17 - 2 * key_max;
    let x = arena + 23 * cap;
    let y = arena + 12 * cap;
    assert(x / f <= points) by (nonlinear_arith)
        requires
            x < (points + 1) * f,
            f > 0,
            x >= 0,
    ;
    assert(y / g <= ranges) by (nonlinear_arith)
        requires
            y < (ranges + 1) * g,
            g > 0,
            y >= 0,
    ;
}

} // verus!

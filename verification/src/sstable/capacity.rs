//! How many blocks a flushed memtable takes at most.

use vstd::prelude::*;

use super::format::{ent_len, ents_len, entry_fits, rdel_len, rdels_len, stored, RdelV};
use super::rdel::rpack;
use super::writer::{pack, stored_all};
use crate::memtable::{arena_used, Rec};

verus! {

/// The point mutations of a memtable.
pub open spec fn points_of(v: Seq<Rec>) -> Seq<Rec>
    decreases v.len(),
{
    if v.len() == 0 {
        Seq::empty()
    } else if v.last().range_del {
        points_of(v.drop_last())
    } else {
        points_of(v.drop_last()).push(v.last())
    }
}

/// The range tombstones of a memtable that a table can store: one with an
/// empty end covers no key.
pub open spec fn rdels_of(v: Seq<Rec>) -> Seq<RdelV>
    decreases v.len(),
{
    if v.len() == 0 {
        Seq::empty()
    } else if v.last().range_del && v.last().val.len() > 0 {
        rdels_of(v.drop_last()).push(
            RdelV { start: v.last().key, end: v.last().val, seq: v.last().seq },
        )
    } else {
        rdels_of(v.drop_last())
    }
}

/// Least bytes, restart offsets counted for every entry, that a sealed data
/// block holds.
pub open spec fn data_fill(block: int, key_max: int, val_max: int) -> int {
    let f = block - 26 - key_max - val_max;
    if f < 1 {
        1
    } else if f > 0x7800 {
        0x7800
    } else {
        f
    }
}

/// Least bytes that a sealed rdel block holds.
pub open spec fn rdel_fill(block: int, key_max: int) -> int {
    let f = block - 17 - 2 * key_max;
    if f < 1 {
        1
    } else {
        f
    }
}

/// Blocks that the table of any memtable of the given shape fits.
pub open spec fn flush_bound(
    block: int,
    cap: int,
    arena: int,
    key_max: int,
    val_max: int,
) -> int {
    let n = (arena + 23 * cap) / data_fill(block, key_max, val_max) + (arena + 12 * cap)
        / rdel_fill(block, key_max) + 2;
    3 + if n < cap {
        n
    } else {
        cap
    }
}

/// Upper bound on the blocks of a table flushed from a memtable of `cap`
/// entries and `arena` key/value bytes, whatever they are: data blocks,
/// range-tombstone blocks, and the three framing blocks. A table slot must
/// hold this many, or the write path could wedge on a flush that never fits.
#[must_use]
pub fn max_flush_blocks<const BLOCK: usize>(
    cap: usize,
    arena: usize,
    key_max: usize,
    val_max: usize,
) -> (r: u64)
    requires
        cap <= u32::MAX,
        arena <= u32::MAX,
        key_max <= 0xFFFF,
        val_max <= 0xFFFF,
        BLOCK <= u32::MAX,
    ensures
        r == flush_bound(BLOCK as int, cap as int, arena as int, key_max as int, val_max as int),
{
    let block: u64 = BLOCK as u64;
    let entry: u64 = 26 + key_max as u64 + val_max as u64;
    let fill: u64 = if block <= entry {
        1
    } else if block - entry > 0x7800 {
        0x7800
    } else {
        block - entry
    };
    let rdel: u64 = 17 + 2 * (key_max as u64);
    let rfill: u64 = if block <= rdel {
        1
    } else {
        block - rdel
    };
    let data: u64 = (arena as u64 + 23 * (cap as u64)) / fill;
    let rdels: u64 = (arena as u64 + 12 * (cap as u64)) / rfill;
    assert(data <= arena + 23 * cap) by (nonlinear_arith)
        requires
            data == (arena + 23 * cap) / (fill as int),
            fill >= 1,
    ;
    assert(rdels <= arena + 12 * cap) by (nonlinear_arith)
        requires
            rdels == (arena + 12 * cap) / (rfill as int),
            rfill >= 1,
    ;
    let n: u64 = data + rdels + 2;
    if n < cap as u64 {
        n + 3
    } else {
        cap as u64 + 3
    }
}

/// Bytes of entries, with two more for each.
spec fn charged(es: Seq<Rec>) -> nat
    decreases es.len(),
{
    if es.len() == 0 {
        0
    } else {
        charged(es.drop_last()) + ent_len(es.last()) + 2
    }
}

proof fn lemma_charged(es: Seq<Rec>)
    ensures
        charged(es) == ents_len(es) + 2 * es.len(),
    decreases es.len(),
{
    if es.len() > 0 {
        lemma_charged(es.drop_last());
    }
}

/// Every stored entry takes at least 13 bytes and at most the limit.
spec fn sized(es: Seq<Rec>, most: int) -> bool {
    forall|i: int| 0 <= i < es.len() ==> ent_len(stored(#[trigger] es[i])) <= most
}

/// All but the last block of a packing are filled.
proof fn lemma_pack_fill(es: Seq<Rec>, block: int, fill: int, most: int)
    requires
        sized(es, most),
        1 <= fill <= 0x7800,
        fill == 1 || fill <= block - 5 - most,
    ensures
        pack(es, block).len() > 0 <==> es.len() > 0,
        pack(es, block).len() <= es.len(),
        es.len() > 0 ==> pack(es, block).last().len() > 0,
        es.len() > 0 ==> fill * (pack(es, block).len() - 1) + charged(pack(es, block).last())
            <= charged(stored_all(es)),
    decreases es.len(),
{
    if es.len() > 0 {
        let d = es.drop_last();
        let e = stored(es.last());
        let gs = pack(d, block);
        let w = pack(es, block);
        assert(sized(d, most)) by {
            assert forall|i: int| 0 <= i < d.len() implies ent_len(stored(#[trigger] d[i]))
                <= most by {
                assert(ent_len(stored(es[i])) <= most);
            }
        }
        assert(ent_len(stored(es[es.len() - 1])) <= most);
        lemma_pack_fill(d, block, fill, most);
        assert(stored_all(es).drop_last() =~= stored_all(d));
        assert(stored_all(es).last() == e);
        let l = gs.last();
        if w.len() == gs.len() {
            assert(w.last() == l.push(e));
            assert(l.push(e).drop_last() =~= l);
        } else {
            assert(w.last() =~= seq![e]);
            assert(seq![e].drop_last() =~= Seq::<Rec>::empty());
            assert(charged(seq![e]) == ent_len(e) + 2) by {
                reveal_with_fuel(charged, 2);
            }
            if gs.len() > 0 {
                lemma_charged(l);
                assert(charged(l) >= fill) by {
                    assert(l.len() >= 1);
                    lemma_entries_heavy(l);
                    assert(!entry_fits(
                        ents_len(l) as int,
                        l.len() as int,
                        ent_len(e) as int,
                        block,
                    ));
                    assert(l.len() as int / 16 + 1 <= l.len());
                }
                assert(fill * (w.len() - 1) == fill * (gs.len() - 1) + fill) by (nonlinear_arith)
                    requires
                        w.len() == gs.len() + 1,
                ;
            } else {
                assert(fill * 0 == 0) by (nonlinear_arith);
            }
        }
    }
}

proof fn lemma_entries_heavy(es: Seq<Rec>)
    ensures
        ents_len(es) >= 13 * es.len(),
    decreases es.len(),
{
    if es.len() > 0 {
        lemma_entries_heavy(es.drop_last());
    }
}

/// Every tombstone takes at most the limit.
spec fn rsized(rs: Seq<RdelV>, most: int) -> bool {
    forall|i: int| 0 <= i < rs.len() ==> rdel_len(#[trigger] rs[i]) <= most
}

/// All but the last block of a packed section are filled.
proof fn lemma_rpack_fill(rs: Seq<RdelV>, block: int, fill: int, most: int)
    requires
        rsized(rs, most),
        fill == 1 || fill <= block - 5 - most,
        1 <= fill,
    ensures
        rpack(rs, block).len() > 0 <==> rs.len() > 0,
        rpack(rs, block).len() <= rs.len(),
        rs.len() > 0 ==> rpack(rs, block).last().len() > 0,
        rs.len() > 0 ==> fill * (rpack(rs, block).len() - 1) + rdels_len(rpack(rs, block).last())
            <= rdels_len(rs),
    decreases rs.len(),
{
    if rs.len() > 0 {
        let d = rs.drop_last();
        let e = rs.last();
        let gs = rpack(d, block);
        let w = rpack(rs, block);
        assert(rsized(d, most)) by {
            assert forall|i: int| 0 <= i < d.len() implies rdel_len(#[trigger] d[i]) <= most by {
                assert(rdel_len(rs[i]) <= most);
            }
        }
        assert(rdel_len(rs[rs.len() - 1]) <= most);
        lemma_rpack_fill(d, block, fill, most);
        let l = gs.last();
        if w.len() == gs.len() {
            assert(w.last() == l.push(e));
            assert(l.push(e).drop_last() =~= l);
        } else {
            assert(w.last() =~= seq![e]);
            assert(seq![e].drop_last() =~= Seq::<RdelV>::empty());
            assert(rdels_len(seq![e]) == rdel_len(e)) by {
                reveal_with_fuel(rdels_len, 2);
            }
            if gs.len() > 0 {
                assert(rdels_len(l) >= fill) by {
                    assert(rdels_len(l) == rdels_len(l.drop_last()) + rdel_len(l.last()));
                }
                assert(fill * (w.len() - 1) == fill * (gs.len() - 1) + fill) by (nonlinear_arith)
                    requires
                        w.len() == gs.len() + 1,
                ;
            } else {
                assert(fill * 0 == 0) by (nonlinear_arith);
            }
        }
    }
}

/// The arena bytes of one more mutation.
proof fn lemma_arena_last(v: Seq<Rec>)
    requires
        v.len() > 0,
    ensures
        arena_used(v) == arena_used(v.drop_last()) + v.last().key.len() + v.last().val.len(),
    decreases v.len(),
{
    if v.len() > 1 {
        lemma_arena_last(v.skip(1));
        assert(v.skip(1).drop_last() =~= v.drop_last().skip(1));
        assert(v.drop_last()[0] == v[0]);
    } else {
        assert(v.skip(1) =~= Seq::<Rec>::empty());
        assert(v.drop_last() =~= Seq::<Rec>::empty());
    }
}

proof fn lemma_split_bytes(v: Seq<Rec>)
    ensures
        charged(stored_all(points_of(v))) + rdels_len(rdels_of(v)) <= arena_used(v) + 23 * v.len(),
        charged(stored_all(points_of(v))) <= arena_used(v) + 23 * v.len(),
        rdels_len(rdels_of(v)) <= arena_used(v) + 12 * v.len(),
        points_of(v).len() + rdels_of(v).len() <= v.len(),
    decreases v.len(),
{
    if v.len() > 0 {
        let d = v.drop_last();
        let e = v.last();
        lemma_split_bytes(d);
        lemma_arena_last(v);
        if e.range_del {
            let rs = rdels_of(v);
            if e.val.len() > 0 {
                assert(rs.drop_last() =~= rdels_of(d));
            }
        } else {
            let es = points_of(v);
            assert(es.drop_last() =~= points_of(d));
            assert(stored_all(es).drop_last() =~= stored_all(points_of(d)));
            assert(stored_all(es).last() == stored(e));
        }
    }
}

/// The points of a memtable whose mutations keep within the limits do, too.
proof fn lemma_points_sized(v: Seq<Rec>, key_max: int, val_max: int)
    requires
        forall|i: int|
            0 <= i < v.len() ==> (#[trigger] v[i]).key.len() <= key_max && (if v[i].range_del {
                v[i].val.len() <= key_max
            } else {
                v[i].val.len() <= val_max
            }),
    ensures
        sized(points_of(v), 21 + key_max + val_max),
        rsized(rdels_of(v), 12 + 2 * key_max),
    decreases v.len(),
{
    if v.len() > 0 {
        let d = v.drop_last();
        let e = v[v.len() - 1];
        assert forall|i: int| 0 <= i < d.len() implies (#[trigger] d[i]).key.len() <= key_max && (
        if d[i].range_del {
            d[i].val.len() <= key_max
        } else {
            d[i].val.len() <= val_max
        }) by {
            assert(v[i].key.len() <= key_max);
        }
        lemma_points_sized(d, key_max, val_max);
        if e.range_del {
            let rs = rdels_of(v);
            assert forall|i: int| 0 <= i < rs.len() implies rdel_len(#[trigger] rs[i]) <= 12 + 2
                * key_max by {
                if i < rdels_of(d).len() {
                    assert(rs[i] == rdels_of(d)[i]);
                }
            }
        } else {
            let es = points_of(v);
            assert forall|i: int| 0 <= i < es.len() implies ent_len(stored(#[trigger] es[i])) <= 21
                + key_max + val_max by {
                if i < points_of(d).len() {
                    assert(es[i] == points_of(d)[i]);
                }
            }
        }
    }
}

/// Dividing by a block's least fill bounds the blocks.
proof fn lemma_blocks_by_fill(n: int, fill: int, total: int)
    requires
        fill >= 1,
        n >= 1,
        fill * (n - 1) <= total,
    ensures
        n <= total / fill + 1,
{
    assert(n - 1 <= total / fill) by (nonlinear_arith)
        requires
            fill >= 1,
            fill * (n - 1) <= total,
    ;
}

/// The table flushed from a memtable fits [`max_flush_blocks`].
pub proof fn law_flush_fits(
    v: Seq<Rec>,
    block: int,
    cap: int,
    arena: int,
    key_max: int,
    val_max: int,
)
    requires
        v.len() <= cap,
        arena_used(v) <= arena,
        forall|i: int|
            0 <= i < v.len() ==> (#[trigger] v[i]).key.len() <= key_max && (if v[i].range_del {
                v[i].val.len() <= key_max
            } else {
                v[i].val.len() <= val_max
            }),
        0 <= key_max,
        0 <= val_max,
    ensures
        pack(points_of(v), block).len() + rpack(rdels_of(v), block).len() + 3 <= flush_bound(
            block,
            cap,
            arena,
            key_max,
            val_max,
        ),
{
    let es = points_of(v);
    let rs = rdels_of(v);
    let f = data_fill(block, key_max, val_max);
    let g = rdel_fill(block, key_max);
    lemma_points_sized(v, key_max, val_max);
    lemma_split_bytes(v);
    lemma_pack_fill(es, block, f, 21 + key_max + val_max);
    lemma_rpack_fill(rs, block, g, 12 + 2 * key_max);
    let n = pack(es, block).len() as int;
    let m = rpack(rs, block).len() as int;
    let a = arena + 23 * cap;
    let b = arena + 12 * cap;
    assert(a / f >= 0) by (nonlinear_arith)
        requires
            a >= 0,
            f >= 1,
    ;
    assert(b / g >= 0) by (nonlinear_arith)
        requires
            b >= 0,
            g >= 1,
    ;
    if n > 0 {
        lemma_blocks_by_fill(n, f, a);
    }
    if m > 0 {
        lemma_blocks_by_fill(m, g, b);
    }
}

} // verus!

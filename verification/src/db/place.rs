//! Where the live tables sit: one table per used slot.

use vstd::prelude::*;

use super::view::{lemma_tab_kept, read_order, tab_sound, DimsV};
use super::flush::touches_only;
use super::{cached_ok, tables_ok};
use crate::device::{same_blocks, same_outside};
use crate::manifest::{flat, top_of};
use crate::manifest_format::TabV;
use crate::slots::SlotMap;

verus! {

/// There is a table at position `i` of level `l`.
pub open spec fn at(levels: Seq<Seq<TabV>>, l: int, i: int) -> bool {
    0 <= l < levels.len() && 0 <= i < levels[l].len()
}

/// The table sits wholly inside slot `s`.
pub open spec fn sits(slots: SlotMap, t: TabV, s: u32) -> bool {
    slots.holds(s, t.first_block, t.block_count as u64)
}

/// The table sits in a used slot.
pub open spec fn housed(slots: SlotMap, t: TabV) -> bool {
    exists|s: u32| #[trigger] sits(slots, t, s) && slots.used(s)
}

/// A live table sits in slot `s`.
pub open spec fn occupied(slots: SlotMap, levels: Seq<Seq<TabV>>, s: u32) -> bool {
    exists|l: int, i: int| at(levels, l, i) && #[trigger] sits(slots, levels[l][i], s)
}

/// Every live table sits in a used slot of its own, and every used slot
/// holds one.
pub open spec fn placed(slots: SlotMap, levels: Seq<Seq<TabV>>) -> bool {
    &&& forall|l: int, i: int| at(levels, l, i) ==> housed(slots, #[trigger] levels[l][i])
    &&& forall|l: int, i: int, m: int, j: int, s: u32|
        at(levels, l, i) && at(levels, m, j) && #[trigger] sits(slots, levels[l][i], s)
            && #[trigger] sits(slots, levels[m][j], s) ==> l == m && i == j
    &&& forall|s: u32| #[trigger] slots.used(s) ==> occupied(slots, levels, s)
}

/// Tables in slots of their own begin in different blocks.
pub proof fn lemma_first_apart(slots: SlotMap, levels: Seq<Seq<TabV>>)
    requires
        slots.wf(),
        placed(slots, levels),
    ensures
        forall|l: int, i: int, m: int, j: int|
            at(levels, l, i) && at(levels, m, j) && (#[trigger] levels[l][i]).first_block == (
            #[trigger] levels[m][j]).first_block ==> l == m && i == j,
{
    assert forall|l: int, i: int, m: int, j: int|
        at(levels, l, i) && at(levels, m, j) && (#[trigger] levels[l][i]).first_block == (
        #[trigger] levels[m][j]).first_block implies l == m && i == j by {
        let t = levels[l][i];
        let u = levels[m][j];
        assert(housed(slots, levels[l][i]) && housed(slots, levels[m][j]));
        let s = choose|s: u32| #[trigger] sits(slots, t, s) && slots.used(s);
        let r = choose|r: u32| #[trigger] sits(slots, u, r) && slots.used(r);
        if s < r {
            slots.law_slots_tile(s as int, r as int);
        } else if r < s {
            slots.law_slots_tile(r as int, s as int);
        }
        assert(sits(slots, levels[l][i], s) && sits(slots, levels[m][j], s));
    }
}

/// A live table has no block in a slot that is not used.
pub proof fn lemma_slot_apart(
    slots: SlotMap,
    levels: Seq<Seq<TabV>>,
    l: int,
    i: int,
    s: u32,
)
    requires
        slots.wf(),
        placed(slots, levels),
        at(levels, l, i),
        s < slots.slot_count(),
        !slots.used(s),
    ensures
        levels[l][i].first_block + levels[l][i].block_count <= slots.base_of(s as int)
            || slots.base_of(s + 1) <= levels[l][i].first_block,
{
    let t = levels[l][i];
    assert(housed(slots, t));
    let u = choose|u: u32| #[trigger] sits(slots, t, u) && slots.used(u);
    if u < s {
        slots.law_slots_tile(u as int, s as int);
    } else {
        slots.law_slots_tile(s as int, u as int);
    }
}

/// A live table lies in the slots' region.
pub proof fn lemma_in_region(slots: SlotMap, levels: Seq<Seq<TabV>>, l: int, i: int)
    requires
        slots.wf(),
        placed(slots, levels),
        at(levels, l, i),
    ensures
        slots.base_of(0) <= levels[l][i].first_block,
        levels[l][i].first_block + levels[l][i].block_count <= slots.base_of(
            slots.slot_count() as int,
        ),
        slots.base_of(slots.slot_count() as int) <= u64::MAX,
{
    let t = levels[l][i];
    assert(housed(slots, t));
    let u = choose|u: u32| #[trigger] sits(slots, t, u) && slots.used(u);
    let n = slots.slot_count() as int;
    slots.law_slots_tile(u as int, n);
    if u > 0 {
        slots.law_slots_tile(0, u as int);
    }
}

/// The same slots, laid out the same, hold the same tables.
pub proof fn lemma_sits_same(a: SlotMap, b: SlotMap, t: TabV, s: u32)
    requires
        a.same_layout(&b),
    ensures
        sits(a, t, s) == sits(b, t, s),
{
    assert(a.base_of(s as int) == b.base_of(s as int));
    assert(a.base_of(s + 1) == b.base_of(s + 1));
}

/// One more table, in a slot that was not used, on any level.
pub proof fn lemma_place_insert(
    a: SlotMap,
    b: SlotMap,
    levels: Seq<Seq<TabV>>,
    l: int,
    p: int,
    t: TabV,
    s: u32,
)
    requires
        a.wf(),
        placed(a, levels),
        0 <= l < levels.len(),
        0 <= p <= levels[l].len(),
        sits(a, t, s),
        !a.used(s),
        b.same_layout(&a),
        forall|i: u32| #[trigger] b.used(i) == (a.used(i) || i == s),
    ensures
        placed(b, levels.update(l, levels[l].insert(p, t))),
{
    let ls = levels.update(l, levels[l].insert(p, t));
    assert forall|m: int, i: int| at(ls, m, i) implies housed(b, #[trigger] ls[m][i]) by {
        if m == l && i == p {
            lemma_sits_same(b, a, t, s);
            assert(sits(b, t, s) && b.used(s));
        } else {
            let i0 = if m == l && i > p {
                i - 1
            } else {
                i
            };
            assert(at(levels, m, i0) && levels[m][i0] == ls[m][i]);
            assert(housed(a, levels[m][i0]));
            let u = choose|u: u32| #[trigger] sits(a, levels[m][i0], u) && a.used(u);
            lemma_sits_same(b, a, ls[m][i], u);
            assert(sits(b, ls[m][i], u) && b.used(u));
        }
    }
    assert forall|m: int, i: int, n: int, j: int, u: u32|
        at(ls, m, i) && at(ls, n, j) && #[trigger] sits(b, ls[m][i], u) && #[trigger] sits(
            b,
            ls[n][j],
            u,
        ) implies m == n && i == j by {
        lemma_sits_same(b, a, ls[m][i], u);
        lemma_sits_same(b, a, ls[n][j], u);
        let i0 = if m == l && i > p {
            i - 1
        } else {
            i
        };
        let j0 = if n == l && j > p {
            j - 1
        } else {
            j
        };
        if m == l && i == p {
            a.law_one_slot(u, s, t.first_block, t.block_count as u64);
            if !(n == l && j == p) {
                assert(at(levels, n, j0) && levels[n][j0] == ls[n][j]);
                lemma_house_of(a, levels, n, j0, s);
            }
        } else if n == l && j == p {
            a.law_one_slot(u, s, t.first_block, t.block_count as u64);
            assert(at(levels, m, i0) && levels[m][i0] == ls[m][i]);
            lemma_house_of(a, levels, m, i0, s);
        } else {
            assert(at(levels, m, i0) && levels[m][i0] == ls[m][i]);
            assert(at(levels, n, j0) && levels[n][j0] == ls[n][j]);
            assert(sits(a, levels[m][i0], u) && sits(a, levels[n][j0], u));
        }
    }
    assert forall|u: u32| #[trigger] b.used(u) implies occupied(b, ls, u) by {
        if u == s {
            lemma_sits_same(b, a, t, s);
            assert(at(ls, l, p) && sits(b, ls[l][p], u));
        } else {
            assert(a.used(u));
            assert(occupied(a, levels, u));
            let (m, i) = choose|m: int, i: int| at(levels, m, i) && #[trigger] sits(
                a,
                levels[m][i],
                u,
            );
            let i1 = if m == l && i >= p {
                i + 1
            } else {
                i
            };
            assert(at(ls, m, i1) && ls[m][i1] == levels[m][i]);
            lemma_sits_same(b, a, ls[m][i1], u);
            assert(sits(b, ls[m][i1], u));
        }
    }
}

/// A live table's slot is used.
pub proof fn lemma_house_of(slots: SlotMap, levels: Seq<Seq<TabV>>, l: int, i: int, s: u32)
    requires
        slots.wf(),
        placed(slots, levels),
        at(levels, l, i),
        sits(slots, levels[l][i], s),
    ensures
        slots.used(s),
{
    let t = levels[l][i];
    assert(housed(slots, t));
    let u = choose|u: u32| #[trigger] sits(slots, t, u) && slots.used(u);
    slots.law_one_slot(u, s, t.first_block, t.block_count as u64);
}

/// One table less: its slot is no longer used.
pub proof fn lemma_place_remove(
    a: SlotMap,
    b: SlotMap,
    levels: Seq<Seq<TabV>>,
    l: int,
    p: int,
    s: u32,
)
    requires
        a.wf(),
        placed(a, levels),
        at(levels, l, p),
        sits(a, levels[l][p], s),
        b.same_layout(&a),
        forall|i: u32| #[trigger] b.used(i) == (a.used(i) && i != s),
    ensures
        placed(b, levels.update(l, levels[l].remove(p))),
{
    let ls = levels.update(l, levels[l].remove(p));
    assert forall|m: int, i: int| at(ls, m, i) implies housed(b, #[trigger] ls[m][i]) by {
        let i0 = if m == l && i >= p {
            i + 1
        } else {
            i
        };
        assert(at(levels, m, i0) && levels[m][i0] == ls[m][i]);
        assert(housed(a, levels[m][i0]));
        let u = choose|u: u32| #[trigger] sits(a, levels[m][i0], u) && a.used(u);
        if u == s {
            assert(sits(a, levels[l][p], u));
            assert(m == l && i0 == p);
        }
        lemma_sits_same(b, a, ls[m][i], u);
        assert(sits(b, ls[m][i], u) && b.used(u));
    }
    assert forall|m: int, i: int, n: int, j: int, u: u32|
        at(ls, m, i) && at(ls, n, j) && #[trigger] sits(b, ls[m][i], u) && #[trigger] sits(
            b,
            ls[n][j],
            u,
        ) implies m == n && i == j by {
        lemma_sits_same(b, a, ls[m][i], u);
        lemma_sits_same(b, a, ls[n][j], u);
        let i0 = if m == l && i >= p {
            i + 1
        } else {
            i
        };
        let j0 = if n == l && j >= p {
            j + 1
        } else {
            j
        };
        assert(at(levels, m, i0) && levels[m][i0] == ls[m][i]);
        assert(at(levels, n, j0) && levels[n][j0] == ls[n][j]);
        assert(sits(a, levels[m][i0], u) && sits(a, levels[n][j0], u));
    }
    assert forall|u: u32| #[trigger] b.used(u) implies occupied(b, ls, u) by {
        assert(a.used(u) && u != s);
        assert(occupied(a, levels, u));
        let (m, i) = choose|m: int, i: int| at(levels, m, i) && #[trigger] sits(a, levels[m][i], u);
        if m == l && i == p {
            a.law_one_slot(u, s, levels[l][p].first_block, levels[l][p].block_count as u64);
        }
        let i1 = if m == l && i > p {
            i - 1
        } else {
            i
        };
        assert(at(ls, m, i1) && ls[m][i1] == levels[m][i]);
        lemma_sits_same(b, a, ls[m][i1], u);
        assert(sits(b, ls[m][i1], u));
    }
}

/// Only the used set matters.
pub proof fn lemma_place_same(a: SlotMap, b: SlotMap, levels: Seq<Seq<TabV>>)
    requires
        placed(a, levels),
        b.same_layout(&a),
        forall|i: u32| #[trigger] b.used(i) == a.used(i),
    ensures
        placed(b, levels),
{
    assert forall|m: int, i: int| at(levels, m, i) implies housed(b, #[trigger] levels[m][i]) by {
        assert(housed(a, levels[m][i]));
        let u = choose|u: u32| #[trigger] sits(a, levels[m][i], u) && a.used(u);
        lemma_sits_same(b, a, levels[m][i], u);
        assert(sits(b, levels[m][i], u) && b.used(u));
    }
    assert forall|m: int, i: int, n: int, j: int, u: u32|
        at(levels, m, i) && at(levels, n, j) && #[trigger] sits(b, levels[m][i], u)
            && #[trigger] sits(b, levels[n][j], u) implies m == n && i == j by {
        lemma_sits_same(b, a, levels[m][i], u);
        lemma_sits_same(b, a, levels[n][j], u);
        assert(sits(a, levels[m][i], u) && sits(a, levels[n][j], u));
    }
    assert forall|u: u32| #[trigger] b.used(u) implies occupied(b, levels, u) by {
        assert(a.used(u));
        assert(occupied(a, levels, u));
        let (m, i) = choose|m: int, i: int| at(levels, m, i) && #[trigger] sits(a, levels[m][i], u);
        lemma_sits_same(b, a, levels[m][i], u);
        assert(at(levels, m, i) && sits(b, levels[m][i], u));
    }
}

/// Live tables stay intact where only blocks outside the slots change.
pub proof fn lemma_tables_kept(
    slots: SlotMap,
    images: Map<(u32, u64), Seq<u8>>,
    c0: Map<u64, Seq<u8>>,
    c1: Map<u64, Seq<u8>>,
    levels: Seq<Seq<TabV>>,
    d: DimsV,
    lo: int,
    hi: int,
)
    requires
        slots.wf(),
        placed(slots, levels),
        tables_ok(images, c0, levels, d),
        same_outside(c0, c1, lo, hi),
        hi <= slots.base_of(0) || slots.base_of(slots.slot_count() as int) <= lo,
    ensures
        tables_ok(images, c1, levels, d),
        forall|l: int, i: int|
            at(levels, l, i) ==> same_blocks(
                c0,
                c1,
                (#[trigger] levels[l][i]).first_block as int,
                levels[l][i].first_block + levels[l][i].block_count,
            ),
{
    assert forall|l: int, i: int| at(levels, l, i) implies tab_sound(c1, #[trigger] levels[l][i], d)
        && cached_ok(images, c1, levels[l][i]) && same_blocks(
        c0,
        c1,
        levels[l][i].first_block as int,
        levels[l][i].first_block + levels[l][i].block_count,
    ) by {
        let t = levels[l][i];
        lemma_in_region(slots, levels, l, i);
        assert(tab_sound(c0, t, d) && cached_ok(images, c0, t));
        lemma_tab_kept(c0, c1, t, d);
    }
}

/// Every table in read order is a live one.
pub proof fn lemma_read_order(levels: Seq<Seq<TabV>>, k: int) -> (r: (int, int))
    requires
        0 <= k < read_order(levels).len(),
    ensures
        at(levels, r.0, r.1),
        read_order(levels)[k] == levels[r.0][r.1],
    decreases levels.len(),
{
    if levels.len() == 1 {
        (0, levels[0].len() - 1 - k)
    } else {
        let d = levels.drop_last();
        let n = read_order(d).len();
        if k < n {
            let (l, i) = lemma_read_order(d, k);
            assert(d[l] == levels[l]);
            (l, i)
        } else {
            (levels.len() - 1, k - n)
        }
    }
}

/// Writes in an unused slot and outside the region leave the live tables
/// as they are.
pub proof fn lemma_tables_kept_both(
    slots: SlotMap,
    images: Map<(u32, u64), Seq<u8>>,
    c0: Map<u64, Seq<u8>>,
    c1: Map<u64, Seq<u8>>,
    levels: Seq<Seq<TabV>>,
    d: DimsV,
    s: u32,
    lo: int,
    hi: int,
)
    requires
        slots.wf(),
        placed(slots, levels),
        s < slots.slot_count(),
        !slots.used(s),
        tables_ok(images, c0, levels, d),
        touches_only(c0, c1, slots.base_of(s as int), slots.base_of(s + 1), lo, hi),
        hi <= slots.base_of(0) || slots.base_of(slots.slot_count() as int) <= lo,
    ensures
        tables_ok(images, c1, levels, d),
        forall|l: int, i: int|
            at(levels, l, i) ==> same_blocks(
                c0,
                c1,
                (#[trigger] levels[l][i]).first_block as int,
                levels[l][i].first_block + levels[l][i].block_count,
            ),
{
    assert forall|l: int, i: int| at(levels, l, i) implies tab_sound(c1, #[trigger] levels[l][i], d)
        && cached_ok(images, c1, levels[l][i]) && same_blocks(
        c0,
        c1,
        levels[l][i].first_block as int,
        levels[l][i].first_block + levels[l][i].block_count,
    ) by {
        let t = levels[l][i];
        lemma_slot_apart(slots, levels, l, i, s);
        lemma_in_region(slots, levels, l, i);
        assert(same_blocks(c0, c1, t.first_block as int, t.first_block + t.block_count));
        assert(cached_ok(images, c0, t));
        lemma_tab_kept(c0, c1, t, d);
        assert forall|b: u64| #[trigger] images.dom().contains((t.id, b)) implies t.first_block <= b
            < t.first_block + t.block_count && images[(t.id, b)] == c1[b] by {
            assert(c0[b] == c1[b]);
        }
    }
}

/// The highest sequence of all tables is at most `m` where each table's is.
pub proof fn lemma_top_flat(levels: Seq<Seq<TabV>>, m: u64)
    ensures
        top_of(flat(levels)) <= m <==> forall|l: int, i: int|
            at(levels, l, i) ==> (#[trigger] levels[l][i]).max_seq <= m,
    decreases levels.len(),
{
    if levels.len() == 0 {
        assert(flat(levels) =~= Seq::<TabV>::empty());
    } else {
        let d = levels.drop_last();
        let t = levels.last();
        lemma_top_flat(d, m);
        lemma_top_concat(flat(d), t, m);
        lemma_top_each(t, m);
        let n = levels.len() - 1;
        if top_of(flat(levels)) <= m {
            assert forall|l: int, i: int| at(levels, l, i) implies (
            #[trigger] levels[l][i]).max_seq <= m by {
                if l < n {
                    assert(at(d, l, i));
                    assert(d[l][i].max_seq <= m);
                } else {
                    assert(t[i].max_seq <= m);
                }
            }
        }
        if forall|l: int, i: int| at(levels, l, i) ==> (#[trigger] levels[l][i]).max_seq <= m {
            assert forall|l: int, i: int| at(d, l, i) implies (#[trigger] d[l][i]).max_seq <= m by {
                assert(at(levels, l, i));
                assert(levels[l][i].max_seq <= m);
            }
            assert forall|i: int| 0 <= i < t.len() implies (#[trigger] t[i]).max_seq <= m by {
                assert(at(levels, n, i));
                assert(levels[n][i].max_seq <= m);
            }
        }
    }
}

proof fn lemma_top_each(ts: Seq<TabV>, m: u64)
    ensures
        top_of(ts) <= m <==> forall|i: int| 0 <= i < ts.len() ==> (#[trigger] ts[i]).max_seq <= m,
    decreases ts.len(),
{
    if ts.len() > 0 {
        let d = ts.drop_last();
        lemma_top_each(d, m);
        if top_of(ts) <= m {
            assert forall|i: int| 0 <= i < ts.len() implies (#[trigger] ts[i]).max_seq <= m by {
                if i < d.len() {
                    assert(d[i].max_seq <= m);
                }
            }
        }
        if forall|i: int| 0 <= i < ts.len() ==> (#[trigger] ts[i]).max_seq <= m {
            assert forall|i: int| 0 <= i < d.len() implies (#[trigger] d[i]).max_seq <= m by {
                assert(ts[i].max_seq <= m);
            }
            assert(ts[ts.len() - 1].max_seq <= m);
        }
    }
}

proof fn lemma_top_concat(xs: Seq<TabV>, ys: Seq<TabV>, m: u64)
    ensures
        top_of(xs + ys) <= m <==> top_of(xs) <= m && top_of(ys) <= m,
    decreases ys.len(),
{
    if ys.len() == 0 {
        assert(xs + ys =~= xs);
    } else {
        lemma_top_concat(xs, ys.drop_last(), m);
        assert((xs + ys).drop_last() =~= xs + ys.drop_last());
        assert((xs + ys).last() == ys.last());
    }
}

} // verus!

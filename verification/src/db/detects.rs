//! What the structural self-check finds, and what it lets pass.

use vstd::prelude::*;

use super::invariants::{clean_before, earlier, overlaps_later, table_fault, taken_before};
use super::place::{at, sits};
use super::Db;
use crate::bytes::lex_lt;
use crate::device::BlockDevice;
use crate::manifest::encodable;
use crate::manifest_format::{body_bytes, copy_blocks, BLOCK_FRAME};

verus! {

impl<
    D: BlockDevice,
    const BLOCK: usize,
    const KEY_MAX: usize,
    const VAL_MAX: usize,
    const CAP: usize,
    const ARENA: usize,
    const LEVELS: usize,
    const TABLES: usize,
    const BLOOM_BYTES: usize,
    const CACHE: usize,
> Db<D, BLOCK, KEY_MAX, VAL_MAX, CAP, ARENA, LEVELS, TABLES, BLOOM_BYTES, CACHE> {
    /// What passes the check holds of every live table: it lies inside one
    /// used slot, shares no block with another table, has room for its
    /// frame, holds no sequence above the counter, and below level 0 shares
    /// no key with another table of its level.
    pub proof fn law_check_finds_tables(&self, l: int, i: int) -> (s: u32)
        requires
            self.wf(),
            self.is_opened(),
            clean_before(
                self.slot_map(),
                self.man().levels,
                self.issued_seq(),
                self.man().levels.len() as int,
                0,
            ),
            0 <= l < self.man().levels.len(),
            0 <= i < self.man().levels[l].len(),
        ensures
            ({
                let t = self.man().levels[l][i];
                &&& s < self.slot_map().slot_count()
                &&& self.slot_map().used(s)
                &&& self.slot_map().base_of(s as int) <= t.first_block
                &&& t.first_block + t.block_count <= self.slot_map().base_of(s + 1)
                &&& t.block_count >= t.rdel_blocks + 3
                &&& t.entry_count > 0 ==> t.min_seq <= t.max_seq
                &&& t.max_seq <= self.issued_seq()
                &&& forall|m: int, j: int|
                    0 <= m < self.man().levels.len() && 0 <= j < self.man().levels[m].len() && (m
                        != l || j != i) ==> t.first_block + t.block_count <= (
                    #[trigger] self.man().levels[m][j]).first_block
                        || self.man().levels[m][j].first_block + self.man().levels[m][j].block_count
                        <= t.first_block
                &&& l >= 1 ==> forall|j: int|
                    0 <= j < self.man().levels[l].len() && j != i ==> lex_lt(
                        t.last_key,
                        (#[trigger] self.man().levels[l][j]).first_key,
                    ) || lex_lt(self.man().levels[l][j].last_key, t.first_key)
            }),
    {
        self.lemma_wf();
        let levels = self.man().levels;
        let slots = self.slot_map();
        let n = levels.len() as int;
        assert forall|m: int, j: int| at(levels, m, j) implies #[trigger] table_fault(
            slots,
            levels,
            self.issued_seq(),
            m,
            j,
        ) is None by {
            assert(earlier(m, j, n, 0));
        }
        let t = levels[l][i];
        assert(table_fault(slots, levels, self.issued_seq(), l, i) is None);
        let s = choose|s: u32| sits(slots, t, s);
        assert forall|m: int, j: int|
            0 <= m < levels.len() && 0 <= j < levels[m].len() && (m != l || j
                != i) implies t.first_block + t.block_count <= (#[trigger] levels[m][j]).first_block
            || levels[m][j].first_block + levels[m][j].block_count <= t.first_block by {
            let u = levels[m][j];
            assert(at(levels, m, j));
            assert(table_fault(slots, levels, self.issued_seq(), m, j) is None);
            let q = choose|q: u32| sits(slots, u, q);
            if q == s {
                if earlier(m, j, l, i) {
                    assert(sits(slots, levels[m][j], s));
                    assert(taken_before(slots, levels, l, i, s));
                } else {
                    assert(earlier(l, i, m, j));
                    assert(sits(slots, levels[l][i], q));
                    assert(taken_before(slots, levels, m, j, q));
                }
            } else if q < s {
                slots.law_slots_tile(q as int, s as int);
            } else {
                slots.law_slots_tile(s as int, q as int);
            }
        }
        if l >= 1 {
            assert forall|j: int| 0 <= j < levels[l].len() && j != i implies lex_lt(
                t.last_key,
                (#[trigger] levels[l][j]).first_key,
            ) || lex_lt(levels[l][j].last_key, t.first_key) by {
                assert(at(levels, l, j));
                assert(table_fault(slots, levels, self.issued_seq(), l, j) is None);
                if i < j {
                    assert(!overlaps_later(levels[l], i));
                } else {
                    assert(!overlaps_later(levels[l], j));
                    let z = levels[l][i];
                }
            }
        }
        s
    }

    /// What passes the check holds of the rest: no used slot without a live
    /// table inside it, one reserved slot at most and none without a job,
    /// no persisted floor above the counter, and a manifest of one block.
    pub proof fn law_check_finds_rest(&self)
        requires
            self.wf(),
            self.is_opened(),
            self.other_fault() is None,
        ensures
            forall|s: u32| #[trigger]
                self.slot_map().used(s) ==> exists|l: int, i: int|
                    0 <= l < self.man().levels.len() && 0 <= i < self.man().levels[l].len()
                        && self.slot_map().base_of(s as int) <= (
                    #[trigger] self.man().levels[l][i]).first_block
                        && self.man().levels[l][i].first_block + self.man().levels[l][i].block_count
                        <= self.slot_map().base_of(s + 1),
            forall|s: u32, q: u32| #[trigger]
                self.slot_map().reserved(s) && s < self.slot_map().slot_count()
                    && #[trigger] self.slot_map().reserved(q) && q < self.slot_map().slot_count()
                    ==> s == q && self.job().0,
            self.man().flushed_seq <= self.issued_seq(),
            self.man().seq_high <= self.issued_seq(),
            0 < body_bytes(self.man()).len() <= BLOCK - BLOCK_FRAME,
    {
        self.lemma_wf();
        let levels = self.man().levels;
        let slots = self.slot_map();
        assert forall|s: u32| #[trigger] slots.used(s) implies exists|l: int, i: int|
            0 <= l < levels.len() && 0 <= i < levels[l].len() && slots.base_of(s as int) <= (
            #[trigger] levels[l][i]).first_block && levels[l][i].first_block
                + levels[l][i].block_count <= slots.base_of(s + 1) by {
            assert(taken_before(slots, levels, levels.len() as int, 0, s));
            let (m, j) = choose|m: int, j: int|
                at(levels, m, j) && earlier(m, j, levels.len() as int, 0) && #[trigger] sits(
                    slots,
                    levels[m][j],
                    s,
                );
            assert(slots.base_of(s as int) <= levels[m][j].first_block);
        }
        assert forall|s: u32, q: u32| #[trigger]
            slots.reserved(s) && s < slots.slot_count() && #[trigger] slots.reserved(q) && q
                < slots.slot_count() implies s == q && self.job().0 by {
            slots.lemma_reserved_counts(s, q);
        }
        let x = body_bytes(self.man()).len() as int;
        let c = BLOCK - BLOCK_FRAME;
        assert(copy_blocks(self.man(), BLOCK as nat) == 1);
        assert(0 < x <= c) by (nonlinear_arith)
            requires
                x >= 0,
                c > 0,
                x / c + (if x % c == 0 {
                    0int
                } else {
                    1int
                }) == 1,
        ;
    }

    /// What is in order passes: tables each in a used slot of its own, with
    /// room for the frame and sequences up to the counter, apart in keys
    /// below level 0; used slots that each hold a table; reservations that
    /// a job holds; floors up to the counter; and a manifest of one block.
    pub proof fn law_check_passes(&self)
        requires
            self.wf(),
            self.is_opened(),
            self.seated(),
            forall|l: int, i: int|
                0 <= l < self.man().levels.len() && 0 <= i < self.man().levels[l].len() ==> {
                    let t = #[trigger] self.man().levels[l][i];
                    &&& t.block_count >= t.rdel_blocks + 3
                    &&& t.entry_count > 0 ==> t.min_seq <= t.max_seq
                    &&& t.max_seq <= self.issued_seq()
                },
            forall|l: int, i: int, j: int|
                1 <= l < self.man().levels.len() && 0 <= i < j < self.man().levels[l].len()
                    ==> lex_lt(
                    (#[trigger] self.man().levels[l][i]).last_key,
                    (#[trigger] self.man().levels[l][j]).first_key,
                ) || lex_lt(self.man().levels[l][j].last_key, self.man().levels[l][i].first_key),
            forall|s: u32, q: u32| #[trigger]
                self.slot_map().reserved(s) && #[trigger] self.slot_map().reserved(q) ==> s == q
                    && self.job().0,
            self.man().flushed_seq <= self.issued_seq(),
            self.man().seq_high <= self.issued_seq(),
            0 < body_bytes(self.man()).len() <= BLOCK - BLOCK_FRAME,
        ensures
            clean_before(
                self.slot_map(),
                self.man().levels,
                self.issued_seq(),
                self.man().levels.len() as int,
                0,
            ),
            self.other_fault() is None,
    {
        reveal(Db::seated);
        self.lemma_wf();
        let levels = self.man().levels;
        let slots = self.slot_map();
        let n = levels.len() as int;
        assert forall|l: int, i: int| at(levels, l, i) implies #[trigger] table_fault(
            slots,
            levels,
            self.issued_seq(),
            l,
            i,
        ) is None by {
            let t = levels[l][i];
            assert(super::place::housed(slots, levels[l][i]));
            let q = choose|q: u32| #[trigger] sits(slots, t, q) && slots.used(q);
            let s = choose|s: u32| sits(slots, t, s);
            assert(sits(slots, t, s));
            slots.law_one_slot(q, s, t.first_block, t.block_count as u64);
            if taken_before(slots, levels, l, i, s) {
                let (m, j) = choose|m: int, j: int|
                    at(levels, m, j) && earlier(m, j, l, i) && #[trigger] sits(
                        slots,
                        levels[m][j],
                        s,
                    );
                assert(sits(slots, levels[l][i], s));
            }
            if l >= 1 && overlaps_later(levels[l], i) {
                let j = choose|j: int|
                    i < j < levels[l].len() && crate::compact::bounds::overlap(
                        levels[l][i].first_key,
                        levels[l][i].last_key,
                        (#[trigger] levels[l][j]).first_key,
                        levels[l][j].last_key,
                    );
            }
        }
        assert forall|s: u32| #[trigger] slots.used(s) implies taken_before(
            slots,
            levels,
            n,
            0,
            s,
        ) by {
            assert(super::place::occupied(slots, levels, s));
            let (l, i) = choose|l: int, i: int|
                at(levels, l, i) && #[trigger] sits(slots, levels[l][i], s);
            assert(earlier(l, i, n, 0));
        }
        slots.lemma_reserved_few();
        let x = body_bytes(self.man()).len() as int;
        let c = BLOCK - BLOCK_FRAME;
        assert(x / c + (if x % c == 0 {
            0int
        } else {
            1int
        }) == 1) by (nonlinear_arith)
            requires
                0 < x <= c,
        ;
        assert(encodable(self.man(), BLOCK as nat));
    }
}

} // verus!

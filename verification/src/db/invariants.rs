//! The structural self-check that callers run after operations.

use vstd::prelude::*;

use super::place::{at, sits};
use super::Db;
use crate::compact::bounds::{overlap, ranges_overlap};
use crate::device::BlockDevice;
use crate::manifest::{data_blocks_of, encodable, TableRef};
use crate::manifest_format::{copy_blocks, TabV};
use crate::slots::{bit_set, lemma_set_bit, SlotMap};

verus! {

/// Table `(m, j)` comes before table `(l, i)`.
pub open spec fn earlier(m: int, j: int, l: int, i: int) -> bool {
    m < l || (m == l && j < i)
}

/// A table before `(l, i)` sits in slot `s`.
pub open spec fn taken_before(
    slots: SlotMap,
    levels: Seq<Seq<TabV>>,
    l: int,
    i: int,
    s: u32,
) -> bool {
    exists|m: int, j: int|
        at(levels, m, j) && earlier(m, j, l, i) && #[trigger] sits(slots, levels[m][j], s)
}

/// A later table of the level shares a key with table `i`.
pub open spec fn overlaps_later(ts: Seq<TabV>, i: int) -> bool {
    exists|j: int|
        i < j < ts.len() && overlap(
            ts[i].first_key,
            ts[i].last_key,
            (#[trigger] ts[j]).first_key,
            ts[j].last_key,
        )
}

/// What is wrong with table `i` of level `l`, if anything.
pub open spec fn table_fault(
    slots: SlotMap,
    levels: Seq<Seq<TabV>>,
    issued: u64,
    l: int,
    i: int,
) -> Option<Seq<char>> {
    let t = levels[l][i];
    let s = choose|s: u32| sits(slots, t, s);
    if forall|s: u32| !#[trigger] sits(slots, t, s) {
        Some("a live table does not sit inside one table slot"@)
    } else if taken_before(slots, levels, l, i, s) {
        Some("two live tables share a table slot"@)
    } else if !slots.used(s) {
        Some("a live table's slot is not marked used"@)
    } else if data_blocks_of(t) is None {
        Some("a table has no room for bloom, index, and footer"@)
    } else if t.entry_count > 0 && t.min_seq > t.max_seq {
        Some("a table's min_seq exceeds its max_seq"@)
    } else if t.max_seq > issued {
        Some("a table holds a sequence above the counter"@)
    } else if l >= 1 && overlaps_later(levels[l], i) {
        Some("two tables in a level >= 1 overlap in key range"@)
    } else {
        None
    }
}

/// No table before `(l, i)` has a fault.
pub open spec fn clean_before(
    slots: SlotMap,
    levels: Seq<Seq<TabV>>,
    issued: u64,
    l: int,
    i: int,
) -> bool {
    forall|m: int, j: int|
        at(levels, m, j) && earlier(m, j, l, i) ==> #[trigger] table_fault(
            slots,
            levels,
            issued,
            m,
            j,
        ) is None
}

/// The slots that the tables before `(l, i)` sit in are the bits of `seen`.
spec fn seen_before(
    slots: SlotMap,
    levels: Seq<Seq<TabV>>,
    l: int,
    i: int,
    seen: u64,
) -> bool {
    forall|s: u32| s < 64 ==> #[trigger] bit_set(seen, s) == taken_before(slots, levels, l, i, s)
}

/// One more table was seen.
proof fn lemma_seen_next(
    slots: SlotMap,
    levels: Seq<Seq<TabV>>,
    l: int,
    i: int,
    seen: u64,
    slot: u32,
)
    requires
        slots.wf(),
        at(levels, l, i),
        slot < 64,
        sits(slots, levels[l][i], slot),
        seen_before(slots, levels, l, i, seen),
    ensures
        seen_before(slots, levels, l, i + 1, seen | (1u64 << slot)),
{
    assert forall|s: u32| s < 64 implies #[trigger] bit_set(seen | (1u64 << slot), s)
        == taken_before(slots, levels, l, i + 1, s) by {
        lemma_set_bit(seen, slot, s);
        assert(bit_set(seen, s) == taken_before(slots, levels, l, i, s));
        if taken_before(slots, levels, l, i + 1, s) {
            let (m, j) = choose|m: int, j: int|
                at(levels, m, j) && earlier(m, j, l, i + 1) && #[trigger] sits(
                    slots,
                    levels[m][j],
                    s,
                );
            if m == l && j == i {
                slots.law_one_slot(
                    s,
                    slot,
                    levels[l][i].first_block,
                    levels[l][i].block_count as u64,
                );
            } else {
                assert(earlier(m, j, l, i));
                assert(taken_before(slots, levels, l, i, s));
            }
        }
        if taken_before(slots, levels, l, i, s) {
            let (m, j) = choose|m: int, j: int|
                at(levels, m, j) && earlier(m, j, l, i) && #[trigger] sits(slots, levels[m][j], s);
            assert(earlier(m, j, l, i + 1));
            assert(sits(slots, levels[m][j], s));
        }
        if s == slot {
            assert(earlier(l, i, l, i + 1));
            assert(sits(slots, levels[l][i], s));
        }
    }
}

/// Past the last table of a level comes the next level.
proof fn lemma_next_level(
    slots: SlotMap,
    levels: Seq<Seq<TabV>>,
    issued: u64,
    l: int,
    seen: u64,
)
    requires
        0 <= l < levels.len(),
        seen_before(slots, levels, l, levels[l].len() as int, seen),
        clean_before(slots, levels, issued, l, levels[l].len() as int),
    ensures
        seen_before(slots, levels, l + 1, 0, seen),
        clean_before(slots, levels, issued, l + 1, 0),
{
    let n = levels[l].len() as int;
    assert forall|m: int, j: int| at(levels, m, j) implies #[trigger] earlier(m, j, l + 1, 0)
        == earlier(m, j, l, n) by {}
    assert forall|m: int, j: int|
        at(levels, m, j) && earlier(m, j, l + 1, 0) implies #[trigger] table_fault(
        slots,
        levels,
        issued,
        m,
        j,
    ) is None by {
        assert(earlier(m, j, l, n));
    }
    assert forall|s: u32| s < 64 implies #[trigger] bit_set(seen, s) == taken_before(
        slots,
        levels,
        l + 1,
        0,
        s,
    ) by {
        if taken_before(slots, levels, l, n, s) {
            let (m, j) = choose|m: int, j: int|
                at(levels, m, j) && earlier(m, j, l, n) && #[trigger] sits(slots, levels[m][j], s);
            assert(earlier(m, j, l + 1, 0));
            assert(sits(slots, levels[m][j], s));
        }
        if taken_before(slots, levels, l + 1, 0, s) {
            let (m, j) = choose|m: int, j: int|
                at(levels, m, j) && earlier(m, j, l + 1, 0) && #[trigger] sits(
                    slots,
                    levels[m][j],
                    s,
                );
            assert(earlier(m, j, l, n));
            assert(sits(slots, levels[m][j], s));
        }
    }
}

impl<
    D: BlockDevice,
    const BLOCK: usize,
    const KEY_MAX: usize,
    const VAL_MAX: usize,
    const CAP: usize,
    const ARENA: usize,
    const LEVELS: usize,
    const TABLES: usize,
    const BLOOM_BYTES: usize,
    const CACHE: usize,
> Db<D, BLOCK, KEY_MAX, VAL_MAX, CAP, ARENA, LEVELS, TABLES, BLOOM_BYTES, CACHE> {
    /// What is wrong beside the tables, if anything.
    pub open spec fn other_fault(&self) -> Option<Seq<char>> {
        let levels = self.man().levels;
        if exists|s: u32| #[trigger]
            self.slot_map().used(s) && !taken_before(
                self.slot_map(),
                levels,
                levels.len() as int,
                0,
                s,
            ) {
            Some("a slot is marked used but holds no live table"@)
        } else if self.slot_map().reserved_count() > if self.job().0 {
            1nat
        } else {
            0nat
        } {
            Some("more slots reserved than a compaction job holds"@)
        } else if self.man().flushed_seq > self.issued_seq() || self.man().seq_high
            > self.issued_seq() {
            Some("a persisted sequence floor exceeds the counter"@)
        } else if copy_blocks(self.man(), BLOCK as nat) != 1 || !encodable(
            self.man(),
            BLOCK as nat,
        ) {
            Some("the manifest no longer fits one block"@)
        } else {
            None
        }
    }

    /// The message is of the first table with a fault.
    pub open spec fn first_fault(&self, l: int, i: int, m: Seq<char>) -> bool {
        let levels = self.man().levels;
        &&& at(levels, l, i)
        &&& clean_before(self.slot_map(), levels, self.issued_seq(), l, i)
        &&& table_fault(self.slot_map(), levels, self.issued_seq(), l, i) == Some(m)
    }

    /// The message is of the first table with a fault, whichever it is.
    pub open spec fn some_fault(&self, m: Seq<char>) -> bool {
        exists|l: int, i: int| #[trigger] self.first_fault(l, i, m)
    }

    /// Structural self-check: verifies the invariants every operation must
    /// preserve and returns the first one violated, or `Ok(())`.
    ///
    /// - Every live table sits wholly inside its own table slot, and the
    ///   slot map's used set is exactly those slots (so no two live tables
    ///   share a block, and no free slot holds a live table).
    /// - At most one slot is reserved, and only while a compaction job is
    ///   in flight (the output it is writing).
    /// - Levels 1 and deeper hold pairwise disjoint key ranges.
    /// - Each table is well-formed (room for bloom, index, and footer after
    ///   its sections; `min_seq <= max_seq`), and the sequence counter
    ///   dominates every stored sequence and both persisted floors.
    /// - The manifest encodes into one block.
    ///
    /// Pure: it reads only in-memory state (no device I/O), in
    /// `O(tables²)`. Firmware can call it after `open()` as a cheap sanity
    /// check.
    ///
    /// # Errors
    ///
    /// A static description of the first violated invariant.
    #[verifier::rlimit(40)]
    pub fn check_invariants(&self) -> (r: Result<(), &'static str>)
        requires
            self.wf(),
        ensures
            ({
                let levels = self.man().levels;
                let clean = clean_before(
                    self.slot_map(),
                    levels,
                    self.issued_seq(),
                    levels.len() as int,
                    0,
                );
                match r {
                    Ok(()) => clean && self.other_fault() is None,
                    Err(m) => {
                        ||| self.some_fault(m@)
                        ||| clean && self.other_fault() == Some(m@)
                    },
                }
            }),
    {
        let ghost levels = self.man().levels;
        let ghost slots = self.slot_map();
        let ghost issued = self.issued_seq();
        proof {
            self.lemma_wf();
            self.slots.lemma_counts();
            assert forall|s: u32| s < 64 implies #[trigger] bit_set(0, s) == taken_before(
                slots,
                levels,
                0,
                0,
                s,
            ) by {
                crate::slots::lemma_or_bits(0, 0, s);
            }
        }
        let mut seen: u64 = 0;
        let mut li: usize = 0;
        while li < LEVELS
            invariant
                self.wf(),
                levels == self.man().levels,
                slots == self.slot_map(),
                issued == self.issued_seq(),
                levels.len() == LEVELS,
                slots.wf(),
                slots.slot_count() <= 64,
                li <= LEVELS,
                seen_before(slots, levels, li as int, 0, seen),
                clean_before(slots, levels, issued, li as int, 0),
            decreases LEVELS - li,
        {
            match self.manifest.level(li) {
                Some(tables) => {
                    match self.check_level(li, tables, &mut seen) {
                        Ok(()) => {},
                        Err(m) => {
                            return Err(m);
                        },
                    }
                },
                None => {},
            }
            proof {
                lemma_next_level(slots, levels, issued, li as int, seen);
            }
            li = li + 1;
        }
        let mut s: u32 = 0;
        while s < self.slots.slots()
            invariant
                self.wf(),
                levels == self.man().levels,
                slots == self.slot_map(),
                issued == self.issued_seq(),
                slots.wf(),
                slots.slot_count() <= 64,
                s <= slots.slot_count(),
                levels.len() == LEVELS,
                seen_before(slots, levels, LEVELS as int, 0, seen),
                clean_before(slots, levels, issued, LEVELS as int, 0),
                forall|x: u32|
                    x < s && #[trigger] slots.used(x) ==> taken_before(
                        slots,
                        levels,
                        LEVELS as int,
                        0,
                        x,
                    ),
            decreases slots.slot_count() - s,
        {
            if self.slots.is_used(s) && seen & (1u64 << s) == 0 {
                assert(!bit_set(seen, s));
                assert(slots.used(s));
                return Err("a slot is marked used but holds no live table");
            }
            assert(slots.used(s) ==> bit_set(seen, s));
            s = s + 1;
        }
        proof {
            assert forall|x: u32| #[trigger] slots.used(x) implies taken_before(
                slots,
                levels,
                LEVELS as int,
                0,
                x,
            ) by {
                self.slots.lemma_used_below(x);
            }
        }
        // A job reserves exactly the slot of the output it is writing:
        // every sealed output commits before the next is reserved.
        let held: u32 = if self.job_active {
            1
        } else {
            0
        };
        if self.slots.reserved_slots() > held {
            return Err("more slots reserved than a compaction job holds");
        }
        if self.manifest.flushed_seq() > self.next_seq || self.manifest.seq_high() > self.next_seq {
            return Err("a persisted sequence floor exceeds the counter");
        }
        let mut buf: [u8; BLOCK] = [0;BLOCK];
        match self.manifest.encode::<D::Error, BLOCK>(&mut buf) {
            Ok(()) => Ok(()),
            Err(_) => Err("the manifest no longer fits one block"),
        }
    }

    /// The checks on the tables of one level.
    #[verifier::rlimit(40)]
    fn check_level(&self, li: usize, tables: &[TableRef<KEY_MAX>], seen: &mut u64) -> (r: Result<
        (),
        &'static str,
    >)
        requires
            self.wf(),
            li < LEVELS,
            self.man().levels.len() == LEVELS,
            crate::manifest::tab_views(tables@) == self.man().levels[li as int],
            crate::manifest::refs_wf(tables@),
            seen_before(self.slot_map(), self.man().levels, li as int, 0, *old(seen)),
            clean_before(self.slot_map(), self.man().levels, self.issued_seq(), li as int, 0),
        ensures
            match r {
                Ok(()) => {
                    let levels = self.man().levels;
                    let n = levels[li as int].len() as int;
                    &&& seen_before(self.slot_map(), levels, li as int, n, *final(seen))
                    &&& clean_before(self.slot_map(), levels, self.issued_seq(), li as int, n)
                },
                Err(m) => self.some_fault(m@),
            },
    {
        let ghost levels = self.man().levels;
        let ghost slots = self.slot_map();
        let ghost issued = self.issued_seq();
        let ghost ts = levels[li as int];
        proof {
            self.lemma_wf();
            self.slots.lemma_counts();
        }
        let mut i: usize = 0;
        while i < tables.len()
            invariant
                self.wf(),
                li < LEVELS,
                levels == self.man().levels,
                levels.len() == LEVELS,
                slots == self.slot_map(),
                slots.wf(),
                slots.slot_count() <= 64,
                issued == self.issued_seq(),
                ts == levels[li as int],
                crate::manifest::tab_views(tables@) == ts,
                crate::manifest::refs_wf(tables@),
                i <= tables@.len(),
                seen_before(slots, levels, li as int, i as int, *seen),
                clean_before(slots, levels, issued, li as int, i as int),
            decreases tables@.len() - i,
        {
            let t: TableRef<KEY_MAX> = tables[i];
            proof {
                assert(tables@[i as int].wf());
                assert(ts[i as int] == t@);
                assert(at(levels, li as int, i as int));
            }
            match self.table_check(li, i, tables, *seen) {
                Ok(slot) => {
                    proof {
                        lemma_seen_next(slots, levels, li as int, i as int, *seen, slot);
                    }
                    *seen = *seen | (1u64 << slot);
                },
                Err(m) => {
                    assert(self.first_fault(li as int, i as int, m@));
                    return Err(m);
                },
            }
            i = i + 1;
            proof {
                assert forall|m: int, j: int|
                    at(levels, m, j) && earlier(
                        m,
                        j,
                        li as int,
                        i as int,
                    ) implies #[trigger] table_fault(slots, levels, issued, m, j) is None by {
                    if !(m == li && j == i - 1) {
                        assert(earlier(m, j, li as int, i - 1));
                    }
                }
            }
        }
        Ok(())
    }

    /// The checks on one table: its slot, or what is wrong with it.
    fn table_check(&self, li: usize, i: usize, tables: &[TableRef<KEY_MAX>], seen: u64) -> (r: Result<
        u32,
        &'static str,
    >)
        requires
            self.wf(),
            li < LEVELS,
            self.man().levels.len() == LEVELS,
            crate::manifest::tab_views(tables@) == self.man().levels[li as int],
            crate::manifest::refs_wf(tables@),
            i < tables@.len(),
            seen_before(self.slot_map(), self.man().levels, li as int, i as int, seen),
        ensures
            match r {
                Ok(slot) => {
                    &&& slot < 64
                    &&& sits(self.slot_map(), self.man().levels[li as int][i as int], slot)
                    &&& table_fault(
                        self.slot_map(),
                        self.man().levels,
                        self.issued_seq(),
                        li as int,
                        i as int,
                    ) is None
                },
                Err(m) => table_fault(
                    self.slot_map(),
                    self.man().levels,
                    self.issued_seq(),
                    li as int,
                    i as int,
                ) == Some(m@),
            },
    {
        let ghost levels = self.man().levels;
        let ghost slots = self.slot_map();
        let ghost ts = levels[li as int];
        let t: TableRef<KEY_MAX> = tables[i];
        proof {
            self.lemma_wf();
            self.slots.lemma_counts();
            assert(tables@[i as int].wf());
            assert(ts[i as int] == t@);
        }
        let slot: u32 = match self.slot_of(&t) {
            Some(s) => s,
            None => {
                return Err("a live table does not sit inside one table slot");
            },
        };
        proof {
            let s = choose|s: u32| sits(slots, t@, s);
            assert(sits(slots, t@, slot));
            slots.law_one_slot(s, slot, t.first_block, t.block_count as u64);
        }
        if seen & (1u64 << slot) != 0 {
            assert(bit_set(seen, slot));
            return Err("two live tables share a table slot");
        }
        assert(!bit_set(seen, slot));
        if !self.slots.is_used(slot) {
            return Err("a live table's slot is not marked used");
        }
        if t.data_blocks().is_none() {
            return Err("a table has no room for bloom, index, and footer");
        }
        if t.entry_count > 0 && t.min_seq > t.max_seq {
            return Err("a table's min_seq exceeds its max_seq");
        }
        if t.max_seq > self.next_seq {
            return Err("a table holds a sequence above the counter");
        }
        if li >= 1 {
            let mut j: usize = i + 1;
            while j < tables.len()
                invariant
                    i < j <= tables@.len(),
                    crate::manifest::tab_views(tables@) == ts,
                    crate::manifest::refs_wf(tables@),
                    t.wf(),
                    ts[i as int] == t@,
                    forall|x: int|
                        i < x < j ==> !overlap(
                            t@.first_key,
                            t@.last_key,
                            (#[trigger] ts[x]).first_key,
                            ts[x].last_key,
                        ),
                ensures
                    j == tables@.len() || (i < j < ts.len() && overlap(
                        t@.first_key,
                        t@.last_key,
                        ts[j as int].first_key,
                        ts[j as int].last_key,
                    )),
                decreases tables@.len() - j,
            {
                let u: TableRef<KEY_MAX> = tables[j];
                assert(tables@[j as int].wf());
                assert(ts[j as int] == u@);
                if ranges_overlap(t.first_key, t.last_key, u.first_key, u.last_key) {
                    break;
                }
                j = j + 1;
            }
            if j < tables.len() {
                assert(overlaps_later(ts, i as int));
                return Err("two tables in a level >= 1 overlap in key range");
            }
        }
        Ok(slot)
    }
}

} // verus!

//! Caller-owned block cache.
//!
//! A fixed-capacity cache of `SSTable` block images on the read path,
//! compile-time sized.
//!
//! # Key
//!
//! Entries are keyed by `(table_id, device_block_id)`. Table ids are
//! monotone and never reused within a manifest lineage, and a table's
//! device blocks are immutable once visible, so a cached entry can never
//! name live data it doesn't describe, even after the table is dropped and
//! its blocks are reclaimed.
//!
//! # Eviction: CLOCK
//!
//! One reference bit per slot, one hand index. Insertion sets the bit
//! (hot) or clears it (cold, used for scan-streamed data blocks, so a scan
//! sweeps its own blocks out behind it instead of displacing the point-read
//! hot set). On a miss the hand advances, clearing set bits, and evicts the
//! first slot it finds clear.
//!
//! # What is cached
//!
//! Physical block images exactly as the device returned them: CRC checks,
//! bloom gating, decompression, and TTL/range shadowing all run after the
//! cache on identical bytes, so a hit is indistinguishable from a re-read,
//! including corruption semantics.

use vstd::prelude::*;

use crate::bytes::{copy_into, spliced};

verus! {

/// One slot, as a value.
#[verifier::ext_equal]
pub struct SlotV {
    pub table_id: u32,
    pub block_id: u64,
    pub occupied: bool,
    pub refbit: bool,
    pub data: Seq<u8>,
}

/// Slot `i` holds the image of `(table_id, block_id)`.
pub open spec fn slot_tagged(s: Seq<SlotV>, table_id: u32, block_id: u64, i: int) -> bool {
    &&& 0 <= i < s.len()
    &&& s[i].occupied
    &&& s[i].table_id == table_id
    &&& s[i].block_id == block_id
}

/// Some slot holds the image of `(table_id, block_id)`.
pub open spec fn has_image(s: Seq<SlotV>, table_id: u32, block_id: u64) -> bool {
    exists|i: int| slot_tagged(s, table_id, block_id, i)
}

/// The slot that holds the image of `(table_id, block_id)`.
pub open spec fn slot_for(s: Seq<SlotV>, table_id: u32, block_id: u64) -> int {
    choose|i: int| slot_tagged(s, table_id, block_id, i)
}

/// No two slots hold the same image.
pub open spec fn tags_unique(s: Seq<SlotV>) -> bool {
    forall|i: int, j: int, t: u32, b: u64| #[trigger]
        slot_tagged(s, t, b, i) && #[trigger] slot_tagged(s, t, b, j) ==> i == j
}

/// A free slot has no reference bit.
pub open spec fn free_clear(s: Seq<SlotV>) -> bool {
    forall|i: int| 0 <= i < s.len() && (#[trigger] s[i]).refbit ==> s[i].occupied
}

/// The cached images.
pub open spec fn images_of(s: Seq<SlotV>) -> Map<(u32, u64), Seq<u8>> {
    Map::new(
        |t: (u32, u64)| has_image(s, t.0, t.1),
        |t: (u32, u64)| s[slot_for(s, t.0, t.1)].data,
    )
}

/// `x` reduced to a slot of `n`, for `x` below `2 * n`.
pub open spec fn wrapped(x: int, n: int) -> int {
    if x >= n {
        x - n
    } else {
        x
    }
}

/// How many slots the hand passes before the one it evicts: those with a
/// set bit, or all of them when every bit is set.
pub open spec fn sweep(s: Seq<SlotV>, hand: int, d: int) -> bool {
    &&& 0 <= d <= s.len()
    &&& forall|j: int| 0 <= j < d ==> s[#[trigger] wrapped(hand + j, s.len() as int)].refbit
    &&& d < s.len() ==> !s[wrapped(hand + d, s.len() as int)].refbit
}

/// The slots after the hand passed `d` of them.
pub open spec fn swept(s: Seq<SlotV>, hand: int, d: int) -> Seq<SlotV>
    decreases d,
{
    if d <= 0 {
        s
    } else {
        let t = swept(s, hand, d - 1);
        let p = wrapped(hand + d - 1, s.len() as int);
        t.update(p, SlotV { refbit: false, ..t[p] })
    }
}

/// One cached block image plus its tag and CLOCK state.
#[derive(Clone, Copy)]
struct CacheEntry<const BLOCK: usize> {
    /// Tag: which table's which device block.
    table_id: u32,
    block_id: u64,
    /// Slot in use.
    occupied: bool,
    /// CLOCK second-chance bit.
    refbit: bool,
    /// Physical block image, byte-identical to the device's.
    data: [u8; BLOCK],
}

impl<const BLOCK: usize> CacheEntry<BLOCK> {
    spec fn value(self) -> SlotV {
        SlotV {
            table_id: self.table_id,
            block_id: self.block_id,
            occupied: self.occupied,
            refbit: self.refbit,
            data: self.data@,
        }
    }
}

/// Cache counters. `Copy`: snapshot them any time.
#[derive(Debug, Clone, Copy, PartialEq, Eq, Structural)]
pub struct CacheStats {
    /// Block reads served from the cache.
    pub hits: u64,
    /// Block reads that went to the device.
    pub misses: u64,
    /// Slots currently holding a block.
    pub len: usize,
    /// Total slots (`SLOTS`).
    pub capacity: usize,
}

impl Default for CacheStats {
    fn default() -> (r: Self)
        ensures
            r == (CacheStats { hits: 0, misses: 0, len: 0, capacity: 0 }),
    {
        CacheStats { hits: 0, misses: 0, len: 0, capacity: 0 }
    }
}

/// `n` counted up once, staying at the top.
pub open spec fn bumped(n: u64) -> u64 {
    if n < u64::MAX {
        (n + 1) as u64
    } else {
        n
    }
}

/// The counters after a lookup: where lookups are counted, a hit counts as
/// one served and a miss as one that was not.
pub open spec fn tallied(a: CacheStats, b: CacheStats, counts: bool, hit: bool) -> bool {
    &&& b.hits == if counts && hit {
        bumped(a.hits)
    } else {
        a.hits
    }
    &&& b.misses == if counts && !hit {
        bumped(a.misses)
    } else {
        a.misses
    }
}

/// How many slots are occupied.
pub open spec fn occupied_count(s: Seq<SlotV>) -> nat
    decreases s.len(),
{
    if s.len() == 0 {
        0
    } else {
        occupied_count(s.drop_last()) + if s.last().occupied {
            1nat
        } else {
            0nat
        }
    }
}

/// Fixed-capacity block cache over caller-owned memory.
///
/// `SLOTS = 0` disables the cache: every method is a no-op and every
/// lookup misses. The `Db` exposes this as `CACHE = 0`.
pub struct BlockCache<const BLOCK: usize, const SLOTS: usize> {
    entries: [CacheEntry<BLOCK>; SLOTS],
    /// CLOCK hand: next eviction candidate.
    hand: usize,
    hits: u64,
    misses: u64,
}

/// The read path's view of a cache: block-image operations.
///
/// A cache may forget any image at any time (it may even hold none), but
/// what it hands out is what was put in.
pub trait CachePort<const BLOCK: usize>: Sized {
    /// The images held.
    spec fn images(&self) -> Map<(u32, u64), Seq<u8>>;

    /// The cache is well formed.
    spec fn port_wf(&self) -> bool;

    /// The counters.
    spec fn counters(&self) -> CacheStats;

    /// The cache counts its lookups.
    spec fn counts() -> bool;

    /// What a lookup does to the cache.
    spec fn looked_up(a: &Self, b: &Self, table_id: u32, block_id: u64) -> bool;

    /// What an insert does to the cache.
    spec fn inserted(
        a: &Self,
        b: &Self,
        table_id: u32,
        block_id: u64,
        block: Seq<u8>,
        hot: bool,
    ) -> bool;

    /// Copies the cached image into `out`; `false` on a miss.
    fn get_into(&mut self, table_id: u32, block_id: u64, out: &mut [u8; BLOCK]) -> (r: bool)
        requires
            old(self).port_wf(),
        ensures
            final(self).port_wf(),
            final(self).images() == old(self).images(),
            r == old(self).images().dom().contains((table_id, block_id)),
            r ==> final(out)@ == old(self).images()[(table_id, block_id)],
            !r ==> final(out)@ == old(out)@,
            tallied(old(self).counters(), final(self).counters(), Self::counts(), r),
            Self::looked_up(old(self), final(self), table_id, block_id),
    ;

    /// Inserts (or replaces) the image; `hot` sets the CLOCK reference bit.
    fn put(&mut self, table_id: u32, block_id: u64, block: &[u8; BLOCK], hot: bool)
        requires
            old(self).port_wf(),
        ensures
            final(self).port_wf(),
            forall|t: (u32, u64)| #[trigger]
                final(self).images().dom().contains(t) ==> (old(self).images().dom().contains(t)
                    && final(self).images()[t] == old(self).images()[t]) || (t == (
                    table_id,
                    block_id,
                ) && final(self).images()[t] == block@),
            final(self).counters().hits == old(self).counters().hits,
            final(self).counters().misses == old(self).counters().misses,
            Self::inserted(old(self), final(self), table_id, block_id, block@, hot),
    ;

    /// Drops every entry for `table_id`.
    fn invalidate_table(&mut self, table_id: u32)
        requires
            old(self).port_wf(),
        ensures
            final(self).port_wf(),
            forall|t: (u32, u64)| #[trigger]
                final(self).images().dom().contains(t) ==> old(self).images().dom().contains(t)
                    && final(self).images()[t] == old(self).images()[t],
            forall|b: u64| !#[trigger] final(self).images().dom().contains((table_id, b)),
            forall|t: (u32, u64)| #[trigger]
                old(self).images().dom().contains(t) && t.0 != table_id
                    ==> final(self).images().dom().contains(t),
    ;

    /// Current counters.
    fn stats(&self) -> (r: CacheStats)
        requires
            self.port_wf(),
        ensures
            r == self.counters(),
    ;
}

/// The cache of standalone readers: it holds nothing.
pub struct NoCache<const BLOCK: usize>;

impl<const BLOCK: usize> CachePort<BLOCK> for NoCache<BLOCK> {
    open spec fn images(&self) -> Map<(u32, u64), Seq<u8>> {
        Map::empty()
    }

    open spec fn port_wf(&self) -> bool {
        true
    }

    open spec fn counters(&self) -> CacheStats {
        CacheStats { hits: 0, misses: 0, len: 0, capacity: 0 }
    }

    open spec fn counts() -> bool {
        false
    }

    open spec fn looked_up(a: &Self, b: &Self, table_id: u32, block_id: u64) -> bool {
        *b == *a
    }

    open spec fn inserted(
        a: &Self,
        b: &Self,
        table_id: u32,
        block_id: u64,
        block: Seq<u8>,
        hot: bool,
    ) -> bool {
        *b == *a
    }

    fn get_into(&mut self, table_id: u32, block_id: u64, out: &mut [u8; BLOCK]) -> (r: bool)
        ensures
            !r,
    {
        false
    }

    fn put(&mut self, table_id: u32, block_id: u64, block: &[u8; BLOCK], hot: bool) {
    }

    fn invalidate_table(&mut self, table_id: u32) {
    }

    fn stats(&self) -> (r: CacheStats) {
        CacheStats { hits: 0, misses: 0, len: 0, capacity: 0 }
    }
}

impl<const BLOCK: usize, const SLOTS: usize> Default for BlockCache<BLOCK, SLOTS> {
    fn default() -> (r: Self)
        ensures
            r.wf(),
            forall|i: int| 0 <= i < SLOTS ==> !(#[trigger] r.slots()[i]).occupied,
            r.hand() == 0,
            r.hits() == 0,
            r.misses() == 0,
            occupied_count(r.slots()) == 0,
    {
        BlockCache::new()
    }
}

proof fn lemma_none_occupied(s: Seq<SlotV>)
    requires
        forall|i: int| 0 <= i < s.len() ==> !(#[trigger] s[i]).occupied,
    ensures
        occupied_count(s) == 0,
    decreases s.len(),
{
    if s.len() > 0 {
        assert(!s[s.len() - 1].occupied);
        assert forall|i: int| 0 <= i < s.drop_last().len() implies !(
        #[trigger] s.drop_last()[i]).occupied by {
            assert(!s[i].occupied);
        }
        lemma_none_occupied(s.drop_last());
    }
}

impl<const BLOCK: usize, const SLOTS: usize> BlockCache<BLOCK, SLOTS> {
    /// The slots.
    pub closed spec fn slots(&self) -> Seq<SlotV> {
        Seq::new(SLOTS as nat, |i: int| self.entries@[i].value())
    }

    /// The CLOCK hand.
    pub closed spec fn hand(&self) -> int {
        self.hand as int
    }

    /// Reads served.
    pub closed spec fn hits(&self) -> u64 {
        self.hits
    }

    /// Reads not served.
    pub closed spec fn misses(&self) -> u64 {
        self.misses
    }

    /// The hand is at a slot, no image is held twice, and free slots are
    /// clear.
    pub open spec fn wf(&self) -> bool {
        &&& self.slots().len() == SLOTS
        &&& SLOTS > 0 ==> 0 <= self.hand() < SLOTS
        &&& tags_unique(self.slots())
        &&& free_clear(self.slots())
        &&& forall|i: int| 0 <= i < SLOTS ==> (#[trigger] self.slots()[i]).data.len() == BLOCK
    }

    /// What a lookup does: a hit sets the slot's reference bit and is
    /// counted, a miss is counted.
    pub open spec fn lookup_done(a: &Self, b: &Self, table_id: u32, block_id: u64) -> bool {
        let i = slot_for(a.slots(), table_id, block_id);
        &&& b.hand() == a.hand()
        &&& if has_image(a.slots(), table_id, block_id) {
            &&& b.slots() == a.slots().update(i, (SlotV { refbit: true, ..a.slots()[i] }))
            &&& b.hits() == bumped(a.hits())
            &&& b.misses() == a.misses()
        } else {
            &&& b.slots() == a.slots()
            &&& b.hits() == a.hits()
            &&& b.misses() == bumped(a.misses())
        }
    }

    /// Empty cache.
    #[must_use]
    pub fn new() -> (r: Self)
        ensures
            r.wf(),
            forall|i: int| 0 <= i < SLOTS ==> !(#[trigger] r.slots()[i]).occupied,
            r.hand() == 0,
            r.hits() == 0,
            r.misses() == 0,
            occupied_count(r.slots()) == 0,
    {
        let e: CacheEntry<BLOCK> = CacheEntry {
            table_id: 0,
            block_id: 0,
            occupied: false,
            refbit: false,
            data: [0u8; BLOCK],
        };
        let r = BlockCache { entries: [e; SLOTS], hand: 0, hits: 0, misses: 0 };
        proof {
            lemma_none_occupied(r.slots());
        }
        r
    }

    /// The slot of `(table_id, block_id)`, `SLOTS` when there is none.
    fn find(&self, table_id: u32, block_id: u64) -> (r: usize)
        requires
            self.wf(),
        ensures
            r <= SLOTS,
            r < SLOTS ==> slot_tagged(self.slots(), table_id, block_id, r as int) && slot_for(
                self.slots(),
                table_id,
                block_id,
            ) == r,
            r == SLOTS ==> !has_image(self.slots(), table_id, block_id),
    {
        let mut i: usize = 0;
        while i < SLOTS
            invariant
                self.wf(),
                i <= SLOTS,
                forall|j: int|
                    0 <= j < i ==> !#[trigger] slot_tagged(self.slots(), table_id, block_id, j),
            decreases SLOTS - i,
        {
            if self.entries[i].occupied && self.entries[i].table_id == table_id
                && self.entries[i].block_id == block_id {
                assert(slot_tagged(self.slots(), table_id, block_id, i as int));
                return i;
            }
            i = i + 1;
        }
        SLOTS
    }

    /// Looks `(table_id, block_id)` up, copying the image into `out` on a
    /// hit and setting the slot's reference bit. Returns `false` on a
    /// miss (nothing is written to `out`).
    pub fn get_into(&mut self, table_id: u32, block_id: u64, out: &mut [u8; BLOCK]) -> (r: bool)
        requires
            old(self).wf(),
        ensures
            final(self).wf(),
            r == has_image(old(self).slots(), table_id, block_id),
            Self::lookup_done(old(self), final(self), table_id, block_id),
            final(out)@ == if r {
                old(self).slots()[slot_for(old(self).slots(), table_id, block_id)].data
            } else {
                old(out)@
            },
    {
        let i: usize = self.find(table_id, block_id);
        if i < SLOTS {
            let ghost s0 = self.slots();
            let mut e: CacheEntry<BLOCK> = self.entries[i];
            copy_into(out, 0, &e.data);
            e.refbit = true;
            self.entries[i] = e;
            self.hits = self.hits.saturating_add(1);
            proof {
                reveal(spliced);
                assert(out@ =~= s0[i as int].data);
                assert(self.slots() =~= s0.update(i as int, SlotV { refbit: true, ..s0[i as int] }));
                lemma_same_tags(s0, self.slots());
            }
            return true;
        }
        self.misses = self.misses.saturating_add(1);
        assert(self.slots() =~= old(self).slots());
        false
    }

    /// Inserts (or replaces) the image for `(table_id, block_id)`. `hot`
    /// sets the CLOCK reference bit: point-read blocks (`true`) defend
    /// their slot; scan-streamed data blocks (`false`) are evicted first,
    /// so a scan doesn't displace the hot set. An image that is already
    /// held is replaced in place.
    pub fn put(&mut self, table_id: u32, block_id: u64, block: &[u8; BLOCK], hot: bool)
        requires
            old(self).wf(),
        ensures
            final(self).wf(),
            final(self).hits() == old(self).hits(),
            final(self).misses() == old(self).misses(),
            put_done(
                old(self).slots(),
                old(self).hand(),
                final(self).slots(),
                final(self).hand(),
                table_id,
                block_id,
                block@,
                hot,
            ),
            SLOTS > 0 ==> {
                &&& has_image(final(self).slots(), table_id, block_id)
                &&& images_of(final(self).slots())[(table_id, block_id)] == block@
            },
    {
        if SLOTS == 0 {
            assert(self.slots() =~= Seq::<SlotV>::empty());
            return;
        }
        let ghost s0 = self.slots();
        let ghost h0 = self.hand();
        let i: usize = self.find(table_id, block_id);
        if i < SLOTS {
            let mut e: CacheEntry<BLOCK> = self.entries[i];
            e.refbit = e.refbit || hot;
            e.data = *block;
            self.entries[i] = e;
            proof {
                assert(self.slots() =~= s0.update(
                    i as int,
                    SlotV { refbit: s0[i as int].refbit || hot, data: block@, ..s0[i as int] },
                ));
                lemma_replaced(s0, self.slots(), i as int, table_id, block_id);
            }
            return;
        }
        let ghost mut d: int = 0;
        while self.entries[self.hand].refbit
            invariant
                SLOTS > 0,
                0 <= h0 < SLOTS,
                s0.len() == SLOTS,
                0 <= d <= SLOTS,
                self.hits == old(self).hits,
                self.misses == old(self).misses,
                self.hand == wrapped(h0 + d, SLOTS as int),
                self.hand < SLOTS,
                self.slots() == swept(s0, h0, d),
                forall|j: int| 0 <= j < d ==> s0[#[trigger] wrapped(h0 + j, SLOTS as int)].refbit,
            decreases SLOTS - d,
        {
            proof {
                lemma_swept(s0, h0, d);
                if d == SLOTS {
                    assert(wrapped(h0 + d, SLOTS as int) == h0);
                    assert(wrapped(h0 + 0, SLOTS as int) == h0);
                }
                assert(self.slots()[self.hand as int].refbit);
            }
            let hand: usize = self.hand;
            let mut e: CacheEntry<BLOCK> = self.entries[hand];
            e.refbit = false;
            self.entries[hand] = e;
            self.hand = if hand + 1 >= SLOTS {
                0
            } else {
                hand + 1
            };
            proof {
                let t = swept(s0, h0, d);
                assert(self.slots() =~= t.update(
                    hand as int,
                    SlotV { refbit: false, ..t[hand as int] },
                ));
                d = d + 1;
            }
        }
        let hand: usize = self.hand;
        proof {
            lemma_swept(s0, h0, d);
            assert(!self.slots()[hand as int].refbit);
            if d == SLOTS {
                assert(wrapped(h0 + 0, SLOTS as int) == h0);
            }
            assert(sweep(s0, h0, d));
        }
        let ghost t = self.slots();
        let e: CacheEntry<BLOCK> = CacheEntry {
            table_id,
            block_id,
            occupied: true,
            refbit: hot,
            data: *block,
        };
        self.entries[hand] = e;
        self.hand = if hand + 1 >= SLOTS {
            0
        } else {
            hand + 1
        };
        proof {
            let s1 = self.slots();
            assert(s1 =~= t.update(
                hand as int,
                SlotV { table_id, block_id, occupied: true, refbit: hot, data: block@ },
            ));
            assert(placed(s0, h0, s1, self.hand(), d, table_id, block_id, block@, hot));
            lemma_placed_wf(s0, h0, s1, d, table_id, block_id, block@, hot, BLOCK as nat);
            law_put_then_hit(s0, h0, s1, self.hand(), table_id, block_id, block@, hot);
        }
    }

    /// Drops every entry tagged with `table_id`. Called when compaction
    /// retires a table; hygiene, not correctness (ids never repeat, so
    /// stale entries are unreachable: this just frees their slots).
    pub fn invalidate_table(&mut self, table_id: u32)
        requires
            old(self).wf(),
        ensures
            final(self).wf(),
            final(self).hand() == old(self).hand(),
            final(self).hits() == old(self).hits(),
            final(self).misses() == old(self).misses(),
            final(self).slots() == dropped(old(self).slots(), table_id, SLOTS as int),
    {
        let ghost s0 = self.slots();
        let mut i: usize = 0;
        while i < SLOTS
            invariant
                i <= SLOTS,
                self.hand == old(self).hand,
                self.hits == old(self).hits,
                self.misses == old(self).misses,
                s0.len() == SLOTS,
                self.slots() =~= dropped(s0, table_id, i as int),
            decreases SLOTS - i,
        {
            let ghost before = self.slots();
            assert(before[i as int] == s0[i as int]);
            if self.entries[i].occupied && self.entries[i].table_id == table_id {
                let mut e: CacheEntry<BLOCK> = self.entries[i];
                e.occupied = false;
                e.refbit = false;
                self.entries[i] = e;
                assert(self.slots() =~= before.update(
                    i as int,
                    SlotV { occupied: false, refbit: false, ..before[i as int] },
                ));
            }
            proof {
                assert forall|j: int| 0 <= j < SLOTS implies #[trigger] self.slots()[j] == dropped(
                    s0,
                    table_id,
                    i + 1,
                )[j] by {
                    assert(before[j] == dropped(s0, table_id, i as int)[j]);
                }
            }
            i = i + 1;
        }
        proof {
            let s1 = self.slots();
            assert forall|x: int, y: int, t: u32, b: u64| #[trigger]
                slot_tagged(s1, t, b, x) && #[trigger] slot_tagged(s1, t, b, y) implies x == y by {
                assert(slot_tagged(s0, t, b, x));
                assert(slot_tagged(s0, t, b, y));
            }
        }
    }

    /// Current counters.
    #[must_use]
    pub fn stats(&self) -> (r: CacheStats)
        requires
            self.wf(),
        ensures
            r == (CacheStats {
                hits: self.hits(),
                misses: self.misses(),
                len: occupied_count(self.slots()) as usize,
                capacity: SLOTS,
            }),
            occupied_count(self.slots()) <= SLOTS,
    {
        let mut len: usize = 0;
        let mut i: usize = 0;
        let ghost s = self.slots();
        while i < SLOTS
            invariant
                s == self.slots(),
                s.len() == SLOTS,
                i <= SLOTS,
                len <= i,
                len == occupied_count(s.take(i as int)),
            decreases SLOTS - i,
        {
            proof {
                assert(s.take(i + 1).drop_last() =~= s.take(i as int));
                assert(s.take(i + 1).last() == s[i as int]);
            }
            if self.entries[i].occupied {
                len = len + 1;
            }
            i = i + 1;
        }
        assert(s.take(SLOTS as int) =~= s);
        CacheStats { hits: self.hits, misses: self.misses, len, capacity: SLOTS }
    }
}

/// The slots with the first `n` of them cleared of `table_id`.
pub open spec fn dropped(s: Seq<SlotV>, table_id: u32, n: int) -> Seq<SlotV> {
    Seq::new(
        s.len(),
        |i: int|
            if i < n && s[i].occupied && s[i].table_id == table_id {
                SlotV { occupied: false, refbit: false, ..s[i] }
            } else {
                s[i]
            },
    )
}

/// The image went into the slot that the hand found after passing `d`.
pub open spec fn placed(
    s0: Seq<SlotV>,
    h0: int,
    s1: Seq<SlotV>,
    h1: int,
    d: int,
    table_id: u32,
    block_id: u64,
    data: Seq<u8>,
    hot: bool,
) -> bool {
    let n = s0.len() as int;
    let p = wrapped(h0 + d, n);
    &&& sweep(s0, h0, d)
    &&& s1 == swept(s0, h0, d).update(
        p,
        (SlotV { table_id, block_id, occupied: true, refbit: hot, data }),
    )
    &&& h1 == wrapped(p + 1, n)
}

/// What a put does: nothing without slots, new bytes in place for an image
/// that is held, and otherwise an eviction.
pub open spec fn put_done(
    s0: Seq<SlotV>,
    h0: int,
    s1: Seq<SlotV>,
    h1: int,
    table_id: u32,
    block_id: u64,
    data: Seq<u8>,
    hot: bool,
) -> bool {
    if s0.len() == 0 {
        s1 == s0 && h1 == h0
    } else if has_image(s0, table_id, block_id) {
        let i = slot_for(s0, table_id, block_id);
        &&& s1 == s0.update(i, (SlotV { refbit: s0[i].refbit || hot, data, ..s0[i] }))
        &&& h1 == h0
    } else {
        exists|d: int| placed(s0, h0, s1, h1, d, table_id, block_id, data, hot)
    }
}

/// The same tags and images, other bits at most.
proof fn lemma_same_tags(s0: Seq<SlotV>, s1: Seq<SlotV>)
    requires
        s0.len() == s1.len(),
        tags_unique(s0),
        forall|i: int|
            0 <= i < s0.len() ==> (#[trigger] s1[i]).table_id == s0[i].table_id && s1[i].block_id
                == s0[i].block_id && s1[i].occupied == s0[i].occupied && s1[i].data == s0[i].data,
    ensures
        tags_unique(s1),
        images_of(s1) == images_of(s0),
{
    assert forall|i: int, j: int, t: u32, b: u64| #[trigger]
        slot_tagged(s1, t, b, i) && #[trigger] slot_tagged(s1, t, b, j) implies i == j by {
        assert(slot_tagged(s0, t, b, i));
        assert(slot_tagged(s0, t, b, j));
    }
    assert forall|t: u32, b: u64| #[trigger] has_image(s1, t, b) == has_image(s0, t, b) by {
        if has_image(s0, t, b) {
            assert(slot_tagged(s1, t, b, slot_for(s0, t, b)));
        }
        if has_image(s1, t, b) {
            assert(slot_tagged(s0, t, b, slot_for(s1, t, b)));
        }
    }
    assert forall|t: u32, b: u64| has_image(s0, t, b) implies #[trigger] slot_for(s1, t, b)
        == slot_for(s0, t, b) by {
        assert(slot_tagged(s0, t, b, slot_for(s0, t, b)));
        assert(has_image(s1, t, b));
        assert(slot_tagged(s1, t, b, slot_for(s1, t, b)));
        assert(slot_tagged(s0, t, b, slot_for(s1, t, b)));
    }
    assert forall|t: (u32, u64)| #[trigger] images_of(s1).dom().contains(t) implies images_of(
        s1,
    )[t] == images_of(s0)[t] by {
        assert(has_image(s1, t.0, t.1));
        assert(slot_for(s1, t.0, t.1) == slot_for(s0, t.0, t.1));
        assert(slot_tagged(s0, t.0, t.1, slot_for(s0, t.0, t.1)));
    }
    assert(images_of(s1) =~= images_of(s0));
}

/// Slot `i` got other bytes under its tag: every other image stays.
proof fn lemma_replaced(s0: Seq<SlotV>, s1: Seq<SlotV>, i: int, table_id: u32, block_id: u64)
    requires
        tags_unique(s0),
        slot_tagged(s0, table_id, block_id, i),
        s1.len() == s0.len(),
        forall|j: int| 0 <= j < s0.len() && j != i ==> #[trigger] s1[j] == s0[j],
        s1[i].table_id == table_id,
        s1[i].block_id == block_id,
        s1[i].occupied,
    ensures
        tags_unique(s1),
        has_image(s1, table_id, block_id),
        images_of(s1)[(table_id, block_id)] == s1[i].data,
        forall|t: (u32, u64)| #[trigger]
            images_of(s1).dom().contains(t) ==> (images_of(s0).dom().contains(t) && images_of(
                s1,
            )[t] == images_of(s0)[t]) || (t == (table_id, block_id) && images_of(s1)[t]
                == s1[i].data),
{
    assert forall|x: int, y: int, t: u32, b: u64| #[trigger]
        slot_tagged(s1, t, b, x) && #[trigger] slot_tagged(s1, t, b, y) implies x == y by {
        assert(slot_tagged(s0, t, b, x));
        assert(slot_tagged(s0, t, b, y));
    }
    assert(slot_tagged(s1, table_id, block_id, i));
    assert(slot_tagged(s1, table_id, block_id, slot_for(s1, table_id, block_id)));
    assert forall|t: (u32, u64)| #[trigger] images_of(s1).dom().contains(t) implies (images_of(
        s0,
    ).dom().contains(t) && images_of(s1)[t] == images_of(s0)[t]) || (t == (table_id, block_id)
        && images_of(s1)[t] == s1[i].data) by {
        assert(has_image(s1, t.0, t.1));
        let j = slot_for(s1, t.0, t.1);
        assert(slot_tagged(s1, t.0, t.1, j));
        if j != i {
            assert(slot_tagged(s0, t.0, t.1, j));
            assert(has_image(s0, t.0, t.1));
            assert(slot_tagged(s0, t.0, t.1, slot_for(s0, t.0, t.1)));
        }
    }
}

/// A sweep changes reference bits only.
proof fn lemma_swept(s: Seq<SlotV>, hand: int, d: int)
    requires
        0 <= hand < s.len(),
        0 <= d <= s.len(),
    ensures
        swept(s, hand, d).len() == s.len(),
        forall|i: int|
            0 <= i < s.len() ==> ({
                let t = #[trigger] swept(s, hand, d)[i];
                &&& t.table_id == s[i].table_id
                &&& t.block_id == s[i].block_id
                &&& t.occupied == s[i].occupied
                &&& t.data == s[i].data
                &&& t.refbit ==> s[i].refbit
            }),
        forall|j: int|
            0 <= j < d ==> !swept(s, hand, d)[#[trigger] wrapped(
                hand + j,
                s.len() as int,
            )].refbit,
        forall|j: int|
            d <= j < s.len() ==> swept(s, hand, d)[#[trigger] wrapped(hand + j, s.len() as int)]
                == s[wrapped(hand + j, s.len() as int)],
    decreases d,
{
    if d > 0 {
        lemma_swept(s, hand, d - 1);
        let n = s.len() as int;
        let t = swept(s, hand, d - 1);
        let p = wrapped(hand + d - 1, n);
        assert forall|j: int| 0 <= j < d implies !swept(s, hand, d)[#[trigger] wrapped(
            hand + j,
            n,
        )].refbit by {
            if j < d - 1 {
                assert(!t[wrapped(hand + j, n)].refbit);
            }
        }
        assert forall|j: int| d <= j < s.len() implies swept(s, hand, d)[#[trigger] wrapped(
            hand + j,
            n,
        )] == s[wrapped(hand + j, n)] by {
            assert(t[wrapped(hand + j, n)] == s[wrapped(hand + j, n)]);
        }
    }
}

proof fn lemma_placed_wf(
    s0: Seq<SlotV>,
    h0: int,
    s1: Seq<SlotV>,
    d: int,
    table_id: u32,
    block_id: u64,
    data: Seq<u8>,
    hot: bool,
    block: nat,
)
    requires
        0 <= h0 < s0.len(),
        tags_unique(s0),
        free_clear(s0),
        !has_image(s0, table_id, block_id),
        data.len() == block,
        forall|i: int| 0 <= i < s0.len() ==> (#[trigger] s0[i]).data.len() == block,
        placed(s0, h0, s1, wrapped(wrapped(h0 + d, s0.len() as int) + 1, s0.len() as int), d, table_id, block_id, data, hot),
    ensures
        s1.len() == s0.len(),
        tags_unique(s1),
        free_clear(s1),
        forall|i: int| 0 <= i < s1.len() ==> (#[trigger] s1[i]).data.len() == block,
        forall|t: (u32, u64)| #[trigger]
            images_of(s1).dom().contains(t) ==> (images_of(s0).dom().contains(t) && images_of(
                s1,
            )[t] == images_of(s0)[t]) || (t == (table_id, block_id) && images_of(s1)[t] == data),
{
    let n = s0.len() as int;
    let p = wrapped(h0 + d, n);
    lemma_swept(s0, h0, d);
    let t0 = swept(s0, h0, d);
    assert forall|i: int, j: int, t: u32, b: u64| #[trigger]
        slot_tagged(s1, t, b, i) && #[trigger] slot_tagged(s1, t, b, j) implies i == j by {
        if i != p {
            assert(s1[i] == t0[i]);
            assert(slot_tagged(s0, t, b, i));
        }
        if j != p {
            assert(s1[j] == t0[j]);
            assert(slot_tagged(s0, t, b, j));
        }
    }
    assert forall|i: int| 0 <= i < s1.len() && (#[trigger] s1[i]).refbit implies s1[i].occupied by {
        if i != p {
            assert(s1[i] == t0[i]);
            assert(s0[i].refbit);
        }
    }
    assert forall|i: int| 0 <= i < s1.len() implies (#[trigger] s1[i]).data.len() == block by {
        if i != p {
            assert(s1[i] == t0[i]);
            assert(s0[i].data.len() == block);
        }
    }
    assert forall|t: (u32, u64)| #[trigger] images_of(s1).dom().contains(t) implies (images_of(
        s0,
    ).dom().contains(t) && images_of(s1)[t] == images_of(s0)[t]) || (t == (table_id, block_id)
        && images_of(s1)[t] == data) by {
        assert(has_image(s1, t.0, t.1));
        let i = slot_for(s1, t.0, t.1);
        assert(slot_tagged(s1, t.0, t.1, i));
        if i != p {
            assert(s1[i] == t0[i]);
            assert(slot_tagged(s0, t.0, t.1, i));
            assert(has_image(s0, t.0, t.1));
            assert(slot_tagged(s0, t.0, t.1, slot_for(s0, t.0, t.1)));
        }
    }
}

impl<const BLOCK: usize, const SLOTS: usize> CachePort<BLOCK> for BlockCache<BLOCK, SLOTS> {
    open spec fn images(&self) -> Map<(u32, u64), Seq<u8>> {
        images_of(self.slots())
    }

    open spec fn port_wf(&self) -> bool {
        self.wf()
    }

    open spec fn counters(&self) -> CacheStats {
        CacheStats {
            hits: self.hits(),
            misses: self.misses(),
            len: occupied_count(self.slots()) as usize,
            capacity: SLOTS,
        }
    }

    open spec fn counts() -> bool {
        true
    }

    open spec fn looked_up(a: &Self, b: &Self, table_id: u32, block_id: u64) -> bool {
        Self::lookup_done(a, b, table_id, block_id)
    }

    open spec fn inserted(
        a: &Self,
        b: &Self,
        table_id: u32,
        block_id: u64,
        block: Seq<u8>,
        hot: bool,
    ) -> bool {
        &&& b.hits() == a.hits()
        &&& b.misses() == a.misses()
        &&& put_done(a.slots(), a.hand(), b.slots(), b.hand(), table_id, block_id, block, hot)
    }

    fn get_into(&mut self, table_id: u32, block_id: u64, out: &mut [u8; BLOCK]) -> (r: bool) {
        let ghost s0 = self.slots();
        let r: bool = BlockCache::get_into(self, table_id, block_id, out);
        proof {
            if r {
                assert(slot_tagged(s0, table_id, block_id, slot_for(s0, table_id, block_id)));
                lemma_same_tags(s0, self.slots());
            }
        }
        r
    }

    fn put(&mut self, table_id: u32, block_id: u64, block: &[u8; BLOCK], hot: bool) {
        let ghost s0 = self.slots();
        let ghost h0 = self.hand();
        BlockCache::put(self, table_id, block_id, block, hot);
        proof {
            let s1 = self.slots();
            if s0.len() > 0 {
                if has_image(s0, table_id, block_id) {
                    assert(slot_tagged(s0, table_id, block_id, slot_for(s0, table_id, block_id)));
                    lemma_replaced(
                        s0,
                        s1,
                        slot_for(s0, table_id, block_id),
                        table_id,
                        block_id,
                    );
                } else {
                    let d = choose|d: int|
                        placed(s0, h0, s1, self.hand(), d, table_id, block_id, block@, hot);
                    lemma_placed_wf(s0, h0, s1, d, table_id, block_id, block@, hot, BLOCK as nat);
                }
            }
        }
    }

    fn invalidate_table(&mut self, table_id: u32) {
        let ghost s0 = self.slots();
        BlockCache::invalidate_table(self, table_id);
        proof {
            let s1 = self.slots();
            assert forall|t: (u32, u64)| #[trigger] images_of(s1).dom().contains(t) implies
                images_of(s0).dom().contains(t) && images_of(s1)[t] == images_of(s0)[t] && t.0
                != table_id by {
                assert(has_image(s1, t.0, t.1));
                let i = slot_for(s1, t.0, t.1);
                assert(slot_tagged(s1, t.0, t.1, i));
                assert(slot_tagged(s0, t.0, t.1, i));
                assert(has_image(s0, t.0, t.1));
                assert(slot_tagged(s0, t.0, t.1, slot_for(s0, t.0, t.1)));
            }
            assert forall|t: (u32, u64)| #[trigger]
                images_of(s0).dom().contains(t) && t.0 != table_id implies images_of(
                s1,
            ).dom().contains(t) by {
                let i = slot_for(s0, t.0, t.1);
                assert(slot_tagged(s0, t.0, t.1, i));
                assert(slot_tagged(s1, t.0, t.1, i));
            }
        }
    }

    fn stats(&self) -> (r: CacheStats) {
        BlockCache::stats(self)
    }
}

/// A hit gives back the image last put in: right after a put with a slot to
/// spare, the image is there, whether or not another was held before.
pub proof fn law_put_then_hit(
    s0: Seq<SlotV>,
    h0: int,
    s1: Seq<SlotV>,
    h1: int,
    table_id: u32,
    block_id: u64,
    data: Seq<u8>,
    hot: bool,
)
    requires
        s0.len() > 0,
        0 <= h0 < s0.len(),
        tags_unique(s0),
        tags_unique(s1),
        put_done(s0, h0, s1, h1, table_id, block_id, data, hot),
    ensures
        has_image(s1, table_id, block_id),
        s1[slot_for(s1, table_id, block_id)].data == data,
{
    if has_image(s0, table_id, block_id) {
        let i = slot_for(s0, table_id, block_id);
        assert(slot_tagged(s0, table_id, block_id, i));
        assert(slot_tagged(s1, table_id, block_id, i));
    } else {
        let d = choose|d: int| placed(s0, h0, s1, h1, d, table_id, block_id, data, hot);
        let p = wrapped(h0 + d, s0.len() as int);
        lemma_swept(s0, h0, d);
        assert(slot_tagged(s1, table_id, block_id, p));
    }
    assert(slot_tagged(s1, table_id, block_id, slot_for(s1, table_id, block_id)));
}

/// A put of a new image takes one slot and leaves the image of every other:
/// the first from the hand on, round, that no lookup has marked since the
/// hand last passed it, or the one at the hand where all are marked. The
/// marks it passes go, the hand comes to rest behind it, and the slot is
/// marked only where the image is a hot one.
pub proof fn law_put_takes_one_slot(
    s0: Seq<SlotV>,
    h0: int,
    s1: Seq<SlotV>,
    h1: int,
    table_id: u32,
    block_id: u64,
    data: Seq<u8>,
    hot: bool,
) -> (p: int)
    requires
        0 <= h0 < s0.len(),
        !has_image(s0, table_id, block_id),
        put_done(s0, h0, s1, h1, table_id, block_id, data, hot),
    ensures
        0 <= p < s0.len(),
        s1.len() == s0.len(),
        forall|i: int|
            0 <= i < s0.len() && i != p ==> (#[trigger] s1[i]).occupied == s0[i].occupied
                && s1[i].table_id == s0[i].table_id && s1[i].block_id == s0[i].block_id
                && s1[i].data == s0[i].data && (s1[i].refbit ==> s0[i].refbit),
        s1[p].occupied && s1[p].table_id == table_id && s1[p].block_id == block_id && s1[p].data
            == data && s1[p].refbit == hot,
        s0[p].refbit ==> p == h0 && forall|i: int| 0 <= i < s0.len() ==> (#[trigger] s0[i]).refbit,
        !s0[p].refbit ==> forall|i: int|
            0 <= i < s0.len() && (if h0 <= p {
                h0 <= i < p
            } else {
                h0 <= i || i < p
            }) ==> (#[trigger] s0[i]).refbit && !s1[i].refbit,
        !s0[p].refbit ==> forall|i: int|
            0 <= i < s0.len() && i != p && !(if h0 <= p {
                h0 <= i < p
            } else {
                h0 <= i || i < p
            }) ==> (#[trigger] s1[i]).refbit == s0[i].refbit,
        h1 == (if p + 1 < s0.len() {
            p + 1
        } else {
            0
        }),
{
    let n = s0.len() as int;
    let d = choose|d: int| placed(s0, h0, s1, h1, d, table_id, block_id, data, hot);
    let p = wrapped(h0 + d, n);
    lemma_swept(s0, h0, d);
    let t = swept(s0, h0, d);
    if d < n {
        assert forall|i: int|
            0 <= i < n && (if h0 <= p {
                h0 <= i < p
            } else {
                h0 <= i || i < p
            }) implies (#[trigger] s0[i]).refbit && !s1[i].refbit by {
            let j = if i >= h0 {
                i - h0
            } else {
                i + n - h0
            };
            assert(wrapped(h0 + j, n) == i);
            assert(s1[i] == t[i]);
        }
        assert forall|i: int|
            0 <= i < n && i != p && !(if h0 <= p {
                h0 <= i < p
            } else {
                h0 <= i || i < p
            }) implies (#[trigger] s1[i]).refbit == s0[i].refbit by {
            let j = if i >= h0 {
                i - h0
            } else {
                i + n - h0
            };
            assert(wrapped(h0 + j, n) == i);
            assert(s1[i] == t[i]);
        }
    } else {
        assert(p == h0);
        assert forall|i: int| 0 <= i < n implies (#[trigger] s0[i]).refbit by {
            let j = if i >= h0 {
                i - h0
            } else {
                i + n - h0
            };
            assert(wrapped(h0 + j, n) == i);
        }
    }
    assert forall|i: int| 0 <= i < n && i != p implies #[trigger] s1[i] == t[i] by {}
    p
}

/// Dropping a table leaves no image of it and every other image as it was.
pub proof fn law_dropped_table_gone(s: Seq<SlotV>, table_id: u32, i: int)
    requires
        0 <= i < s.len(),
    ensures
        ({
            let t = dropped(s, table_id, s.len() as int);
            &&& t.len() == s.len()
            &&& s[i].table_id == table_id ==> !t[i].occupied
            &&& s[i].table_id != table_id ==> t[i] == s[i]
        }),
{
}

impl<const BLOCK: usize, const SLOTS: usize> BlockCache<BLOCK, SLOTS> {
    /// A lookup finds an image exactly where a slot holds it, marks that
    /// slot, and counts one hit or one miss; no image is lost by it.
    pub proof fn law_lookup_counts(a: &Self, b: &Self, table_id: u32, block_id: u64, i: int)
        requires
            a.wf(),
            Self::lookup_done(a, b, table_id, block_id),
            0 <= i < a.slots().len(),
            a.hits() < u64::MAX,
            a.misses() < u64::MAX,
        ensures
            b.slots().len() == a.slots().len(),
            b.slots()[i].occupied == a.slots()[i].occupied,
            b.slots()[i].table_id == a.slots()[i].table_id,
            b.slots()[i].block_id == a.slots()[i].block_id,
            b.slots()[i].data == a.slots()[i].data,
            ({
                let hit = a.slots()[i].occupied && a.slots()[i].table_id == table_id
                    && a.slots()[i].block_id == block_id;
                &&& b.slots()[i].refbit == (hit || a.slots()[i].refbit)
                &&& hit ==> b.hits() == a.hits() + 1 && b.misses() == a.misses()
            }),
            (forall|j: int|
                0 <= j < a.slots().len() ==> !(#[trigger] a.slots()[j]).occupied
                    || a.slots()[j].table_id != table_id || a.slots()[j].block_id != block_id)
                ==> b.misses() == a.misses() + 1 && b.hits() == a.hits(),
    {
        let s = a.slots();
        if slot_tagged(s, table_id, block_id, i) {
            assert(has_image(s, table_id, block_id));
            let k = slot_for(s, table_id, block_id);
            assert(slot_tagged(s, table_id, block_id, k));
        } else if has_image(s, table_id, block_id) {
            let k = slot_for(s, table_id, block_id);
            assert(slot_tagged(s, table_id, block_id, k));
            assert(s[k].occupied);
        }
    }
}

} // verus!

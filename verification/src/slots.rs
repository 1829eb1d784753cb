//! Table-region allocation: fixed-size slots, one table per slot.
//!
//! The table region `[start, end)` is divided into `slots` equal slots of
//! [`slot_blocks`](SlotMap::slot_blocks) blocks each. Every table lives
//! entirely inside one slot and every slot holds at most one table.
//!
//! State is two bitmaps:
//!
//! - **used**: a table the manifest references lives in the slot;
//! - **reserved**: a compaction output is being written there. The job spans
//!   many steps, and a flush between two of them must not be handed the same
//!   slot, so the job reserves its output slot up front and
//!   [`commit`](SlotMap::commit)s it when the manifest makes the output live.
//!
//! Flush and ingest need no reservation: they pick a free slot with
//! [`find_free`](SlotMap::find_free) and [`claim`](SlotMap::claim) it after
//! the commit. Neither bitmap is persisted. Allocation is next-fit from a
//! rotating hint, so successive tables land in successive slots.

use vstd::prelude::*;

verus! {

/// Upper bound on slots: each bitmap is one `u64`.
pub const MAX_SLOTS: usize = 64;

/// Bit `i` of `m`.
pub open spec fn bit_set(m: u64, i: u32) -> bool {
    m & (1u64 << i) != 0
}

/// How many of the first `n` slots the property holds of.
pub open spec fn how_many(p: spec_fn(u32) -> bool, n: nat) -> nat
    decreases n,
{
    if n == 0 {
        0
    } else {
        how_many(p, (n - 1) as nat) + if p((n - 1) as u32) {
            1nat
        } else {
            0nat
        }
    }
}

proof fn lemma_many_same(p: spec_fn(u32) -> bool, q: spec_fn(u32) -> bool, n: nat)
    requires
        n <= MAX_SLOTS,
        forall|i: u32| i < n ==> #[trigger] p(i) == q(i),
    ensures
        how_many(q, n) == how_many(p, n),
    decreases n,
{
    if n > 0 {
        lemma_many_same(p, q, (n - 1) as nat);
        assert(p((n - 1) as u32) == q((n - 1) as u32));
    }
}

proof fn lemma_many_more(p: spec_fn(u32) -> bool, q: spec_fn(u32) -> bool, n: nat, s: u32)
    requires
        n <= MAX_SLOTS,
        s < n,
        !p(s),
        q(s),
        forall|i: u32| i < n && i != s ==> #[trigger] p(i) == q(i),
    ensures
        how_many(q, n) == how_many(p, n) + 1,
    decreases n,
{
    if s == n - 1 {
        lemma_many_same(p, q, (n - 1) as nat);
    } else {
        lemma_many_more(p, q, (n - 1) as nat, s);
        assert(p((n - 1) as u32) == q((n - 1) as u32));
    }
}

proof fn lemma_count_is(m: u64, p: spec_fn(u32) -> bool, n: nat)
    requires
        n <= MAX_SLOTS,
        forall|i: u32| i < n ==> #[trigger] p(i) == bit_set(m, i),
    ensures
        bit_count(m, n) == how_many(p, n),
    decreases n,
{
    if n > 0 {
        lemma_count_is(m, p, (n - 1) as nat);
        assert(p((n - 1) as u32) == bit_set(m, (n - 1) as u32));
    }
}

/// None.
proof fn lemma_many_none(p: spec_fn(u32) -> bool, n: nat)
    requires
        n <= MAX_SLOTS,
        forall|i: u32| i < n ==> !#[trigger] p(i),
    ensures
        how_many(p, n) == 0,
    decreases n,
{
    if n > 0 {
        lemma_many_none(p, (n - 1) as nat);
        assert(!p((n - 1) as u32));
    }
}

/// At most all of them.
proof fn lemma_many_bound(p: spec_fn(u32) -> bool, n: nat)
    ensures
        how_many(p, n) <= n,
    decreases n,
{
    if n > 0 {
        lemma_many_bound(p, (n - 1) as nat);
    }
}

/// Where the property does not hold of all, it fails of one.
proof fn lemma_many_lacks(p: spec_fn(u32) -> bool, n: nat) -> (s: u32)
    requires
        how_many(p, n) < n,
        n <= MAX_SLOTS,
    ensures
        s < n,
        !p(s),
    decreases n,
{
    if !p((n - 1) as u32) {
        (n - 1) as u32
    } else {
        lemma_many_lacks(p, (n - 1) as nat)
    }
}

/// How many of the low `n` bits of `m` are set.
pub open spec fn bit_count(m: u64, n: nat) -> nat
    decreases n,
{
    if n == 0 {
        0
    } else {
        bit_count(m, (n - 1) as nat) + if bit_set(m, (n - 1) as u32) {
            1nat
        } else {
            0nat
        }
    }
}

pub proof fn lemma_set_bit(m: u64, s: u32, i: u32)
    requires
        s < 64,
        i < 64,
    ensures
        bit_set(m | (1u64 << s), i) == (bit_set(m, i) || i == s),
        bit_set(m & !(1u64 << s), i) == (bit_set(m, i) && i != s),
{
    assert(((m | (1u64 << s)) & (1u64 << i) != 0) == ((m & (1u64 << i) != 0) || i == s))
        by (bit_vector)
        requires
            s < 64,
            i < 64,
    ;
    assert(((m & !(1u64 << s)) & (1u64 << i) != 0) == ((m & (1u64 << i) != 0) && i != s))
        by (bit_vector)
        requires
            s < 64,
            i < 64,
    ;
}

pub proof fn lemma_or_bits(a: u64, b: u64, i: u32)
    requires
        i < 64,
    ensures
        bit_set(a | b, i) == (bit_set(a, i) || bit_set(b, i)),
        !bit_set(0, i),
{
    assert(((a | b) & (1u64 << i) != 0) == ((a & (1u64 << i) != 0) || (b & (1u64 << i) != 0)))
        by (bit_vector)
        requires
            i < 64,
    ;
    assert(0u64 & (1u64 << i) == 0) by (bit_vector)
        requires
            i < 64,
    ;
}

proof fn lemma_count_or(a: u64, b: u64, n: nat)
    requires
        n <= 64,
        forall|i: u32| i < n ==> !(bit_set(a, i) && #[trigger] bit_set(b, i)),
    ensures
        bit_count(a | b, n) == bit_count(a, n) + bit_count(b, n),
    decreases n,
{
    if n > 0 {
        lemma_count_or(a, b, (n - 1) as nat);
        lemma_or_bits(a, b, (n - 1) as u32);
        assert(!(bit_set(a, (n - 1) as u32) && bit_set(b, (n - 1) as u32)));
    }
}

/// A bitmap has `n` of its low `n` bits set at most, and fewer when one of
/// them is clear.
pub proof fn lemma_count_bound(m: u64, n: nat)
    requires
        n <= 64,
    ensures
        bit_count(m, n) <= n,
        (exists|i: u32| i < n && !#[trigger] bit_set(m, i)) ==> bit_count(m, n) < n,
        (forall|i: u32| i < n ==> #[trigger] bit_set(m, i)) ==> bit_count(m, n) == n,
        (forall|i: u32| i < n ==> !#[trigger] bit_set(m, i)) ==> bit_count(m, n) == 0,
    decreases n,
{
    if n > 0 {
        lemma_count_bound(m, (n - 1) as nat);
        if exists|i: u32| i < n && !#[trigger] bit_set(m, i) {
            let i = choose|i: u32| i < n && !#[trigger] bit_set(m, i);
            if i < n - 1 {
                assert(i < (n - 1) as nat && !bit_set(m, i));
            }
        }
        if forall|i: u32| i < n ==> #[trigger] bit_set(m, i) {
            assert(bit_set(m, (n - 1) as u32));
        }
        if forall|i: u32| i < n ==> !#[trigger] bit_set(m, i) {
            assert(!bit_set(m, (n - 1) as u32));
        }
    }
}

/// How many of the low `n` bits of `m` are set.
fn count_bits(m: u64, n: u32) -> (r: u32)
    requires
        n <= 64,
    ensures
        r == bit_count(m, n as nat),
        r <= n,
{
    let mut c: u32 = 0;
    let mut i: u32 = 0;
    while i < n
        invariant
            i <= n <= 64,
            c <= i,
            c == bit_count(m, i as nat),
        decreases n - i,
    {
        if m & (1u64 << i) != 0 {
            c = c + 1;
        }
        i = i + 1;
    }
    c
}

/// Fixed-slot allocator over the table region.
#[derive(Debug, Clone, Copy, PartialEq, Eq, Structural)]
pub struct SlotMap {
    base: u64,
    slot_blocks: u64,
    slots: u32,
    used: u64,
    reserved: u64,
    /// Next slot to try (next-fit).
    hint: u32,
}

impl Default for SlotMap {
    fn default() -> (r: Self)
        ensures
            r.wf(),
            r.slot_count() == 0,
    {
        SlotMap::new()
    }
}

impl SlotMap {
    /// The laid-out slots fit the block address space, the bitmaps hold
    /// bits of existing slots only, and the hint names a slot.
    pub closed spec fn wf(&self) -> bool {
        &&& self.slots <= MAX_SLOTS
        &&& self.base + self.slots * self.slot_blocks <= u64::MAX
        &&& self.slots > 0 ==> self.slot_blocks > 0 && self.hint < self.slots
        &&& forall|i: u32| self.slots <= i < 64 ==> !#[trigger] bit_set(self.used, i)
        &&& forall|i: u32| self.slots <= i < 64 ==> !#[trigger] bit_set(self.reserved, i)
    }

    /// Number of slots.
    pub closed spec fn slot_count(&self) -> u32 {
        self.slots
    }

    /// Blocks per slot.
    pub closed spec fn blocks_per_slot(&self) -> u64 {
        self.slot_blocks
    }

    /// First block of slot `i`.
    pub closed spec fn base_of(&self, i: int) -> int {
        self.base + i * self.slot_blocks
    }

    /// A live table occupies slot `i`.
    pub closed spec fn used(&self, i: u32) -> bool {
        i < self.slots && bit_set(self.used, i)
    }

    /// Slot `i` is reserved by the running compaction job.
    pub closed spec fn reserved(&self, i: u32) -> bool {
        i < self.slots && bit_set(self.reserved, i)
    }

    /// Slot `i` exists and is neither used nor reserved.
    pub open spec fn is_free(&self, i: u32) -> bool {
        i < self.slot_count() && !self.used(i) && !self.reserved(i)
    }

    /// The slot the next search starts from.
    pub closed spec fn next_hint(&self) -> u32 {
        self.hint
    }

    /// The slot tried `i`-th by the next search.
    pub open spec fn probe(&self, i: int) -> u32 {
        ((self.next_hint() + i) % (self.slot_count() as int)) as u32
    }

    /// Number of used slots.
    pub closed spec fn used_count(&self) -> nat {
        bit_count(self.used, self.slots as nat)
    }

    /// Number of reserved slots.
    pub closed spec fn reserved_count(&self) -> nat {
        bit_count(self.reserved, self.slots as nat)
    }

    /// Number of slots that are used or reserved.
    pub closed spec fn taken_count(&self) -> nat {
        bit_count(self.used | self.reserved, self.slots as nat)
    }

    /// No slot is both used and reserved.
    pub open spec fn disjoint(&self) -> bool {
        forall|i: u32| !(self.used(i) && #[trigger] self.reserved(i))
    }

    /// The region and its layout are those of `o`.
    pub open spec fn same_layout(&self, o: &SlotMap) -> bool {
        &&& self.slot_count() == o.slot_count()
        &&& self.blocks_per_slot() == o.blocks_per_slot()
        &&& forall|i: int| #[trigger] self.base_of(i) == o.base_of(i)
    }

    /// The run of `blocks` blocks from `first` on lies in slot `i`.
    pub open spec fn holds(&self, i: u32, first: u64, blocks: u64) -> bool {
        &&& i < self.slot_count()
        &&& blocks > 0
        &&& self.base_of(i as int) <= first
        &&& first + blocks <= self.base_of(i + 1)
    }

    /// Slots follow one another without overlap, each `blocks_per_slot`
    /// long, inside the block address space.
    pub proof fn law_slots_tile(&self, i: int, j: int)
        requires
            self.wf(),
            0 <= i < j <= self.slot_count(),
        ensures
            self.base_of(i + 1) == self.base_of(i) + self.blocks_per_slot(),
            self.base_of(i + 1) <= self.base_of(j),
            0 <= self.base_of(i),
            self.base_of(j) <= u64::MAX,
    {
        let b = self.slot_blocks as int;
        let n = self.slots as int;
        assert((i + 1) * b == i * b + b) by (nonlinear_arith);
        assert((i + 1) * b <= j * b) by (nonlinear_arith)
            requires
                i + 1 <= j,
                0 <= b,
        ;
        assert(j * b <= n * b) by (nonlinear_arith)
            requires
                j <= n,
                0 <= b,
        ;
        assert(0 <= i * b) by (nonlinear_arith)
            requires
                0 <= i,
                0 <= b,
        ;
    }

    /// A run lies in one slot at most.
    pub proof fn law_one_slot(&self, i: u32, j: u32, first: u64, blocks: u64)
        requires
            self.wf(),
            self.holds(i, first, blocks),
            self.holds(j, first, blocks),
        ensures
            i == j,
    {
        if i < j {
            self.law_slots_tile(i as int, j as int);
        } else if j < i {
            self.law_slots_tile(j as int, i as int);
        }
    }

    /// Every slot is used, reserved or free: the counts add up.
    pub proof fn law_slot_conservation(&self)
        requires
            self.wf(),
            self.disjoint(),
        ensures
            self.taken_count() == self.used_count() + self.reserved_count(),
            self.taken_count() <= self.slot_count(),
    {
        assert forall|i: u32| i < self.slots implies !(bit_set(self.used, i) && #[trigger] bit_set(
            self.reserved,
            i,
        )) by {
            assert(!(self.used(i) && self.reserved(i)));
        }
        lemma_count_or(self.used, self.reserved, self.slots as nat);
        lemma_count_bound(self.used | self.reserved, self.slots as nat);
    }

    /// What the counts count: the slots that are used, that are reserved,
    /// and that are not free.
    pub proof fn lemma_counted(&self)
        requires
            self.wf(),
        ensures
            self.used_count() == how_many(|i: u32| self.used(i), self.slot_count() as nat),
            self.reserved_count() == how_many(|i: u32| self.reserved(i), self.slot_count() as nat),
            self.taken_count() == how_many(|i: u32| !self.is_free(i), self.slot_count() as nat),
    {
        let n = self.slots as nat;
        assert forall|i: u32| i < self.slots implies #[trigger] bit_set(
            self.used | self.reserved,
            i,
        ) == !self.is_free(i) by {
            lemma_or_bits(self.used, self.reserved, i);
        }
        lemma_count_is(self.used, |i: u32| self.used(i), n);
        lemma_count_is(self.reserved, |i: u32| self.reserved(i), n);
        lemma_count_is(self.used | self.reserved, |i: u32| !self.is_free(i), n);
    }

    /// A free slot is one that the taken ones leave.
    pub proof fn lemma_one_unused(&self, x: u32)
        requires
            self.wf(),
            self.is_free(x),
        ensures
            self.taken_count() < self.slot_count(),
    {
        let n = self.slot_count() as nat;
        let p = |i: u32| !self.is_free(i);
        let p1 = |i: u32| !self.is_free(i) || i == x;
        self.lemma_counted();
        lemma_many_more(p, p1, n, x);
        lemma_many_bound(p1, n);
    }

    /// Two reserved slots make a count of two; one makes a count.
    pub proof fn lemma_reserved_counts(&self, x: u32, y: u32)
        requires
            self.wf(),
            x < self.slot_count(),
            y < self.slot_count(),
            self.reserved(x),
            self.reserved(y),
        ensures
            self.reserved_count() >= 1,
            x != y ==> self.reserved_count() >= 2,
    {
        let n = self.slot_count() as nat;
        let p = |i: u32| self.reserved(i);
        let p1 = |i: u32| self.reserved(i) && i != x;
        let p2 = |i: u32| self.reserved(i) && i != x && i != y;
        self.lemma_counted();
        lemma_many_more(p1, p, n, x);
        if x != y {
            lemma_many_more(p2, p1, n, y);
        }
    }

    /// No reserved slot, no count; one at most, a count of one at most.
    pub proof fn lemma_reserved_few(&self)
        requires
            self.wf(),
        ensures
            (forall|i: u32| !#[trigger] self.reserved(i)) ==> self.reserved_count() == 0,
            (forall|i: u32, j: u32| #[trigger]
                self.reserved(i) && #[trigger] self.reserved(j) ==> i == j)
                ==> self.reserved_count() <= 1,
    {
        let n = self.slot_count() as nat;
        let p = |i: u32| self.reserved(i);
        self.lemma_counted();
        if forall|i: u32| !#[trigger] self.reserved(i) {
            lemma_many_none(p, n);
        } else if forall|i: u32, j: u32| #[trigger]
            self.reserved(i) && #[trigger] self.reserved(j) ==> i == j {
            let x = choose|x: u32| #[trigger] self.reserved(x);
            let z = |i: u32| false;
            lemma_many_none(z, n);
            if x < n {
                assert forall|i: u32| i < n && i != x implies #[trigger] z(i) == p(i) by {
                    if self.reserved(i) {
                        assert(self.reserved(x));
                    }
                }
                lemma_many_more(z, p, n, x);
            } else {
                assert forall|i: u32| i < n implies !#[trigger] p(i) by {
                    if self.reserved(i) {
                        assert(self.reserved(x));
                    }
                }
                lemma_many_none(p, n);
            }
        }
    }

    /// The hint is a slot.
    pub proof fn lemma_hint(&self)
        requires
            self.wf(),
        ensures
            0 <= self.next_hint() < self.slot_count() || self.slot_count() == 0,
    {
    }

    /// Three slots without a live table are three that the used ones leave.
    pub proof fn law_three_unused(&self, x: u32, y: u32, z: u32)
        requires
            self.wf(),
            x < self.slot_count(),
            y < self.slot_count(),
            z < self.slot_count(),
            x != y,
            y != z,
            x != z,
            !self.used(x),
            !self.used(y),
            !self.used(z),
        ensures
            self.used_count() + 3 <= self.slot_count(),
    {
        let n = self.slot_count() as nat;
        let p = |i: u32| self.used(i);
        let p1 = |i: u32| self.used(i) || i == x;
        let p2 = |i: u32| self.used(i) || i == x || i == y;
        let p3 = |i: u32| self.used(i) || i == x || i == y || i == z;
        self.lemma_counted();
        lemma_many_more(p, p1, n, x);
        lemma_many_more(p1, p2, n, y);
        lemma_many_more(p2, p3, n, z);
        lemma_many_bound(p3, n);
    }

    /// Where the used slots leave three, there are three without a live
    /// table.
    pub proof fn law_three_left(&self) -> (r: (u32, u32, u32))
        requires
            self.wf(),
            self.used_count() + 3 <= self.slot_count(),
        ensures
            r.0 < self.slot_count(),
            r.1 < self.slot_count(),
            r.2 < self.slot_count(),
            r.0 != r.1,
            r.1 != r.2,
            r.0 != r.2,
            !self.used(r.0),
            !self.used(r.1),
            !self.used(r.2),
    {
        let n = self.slot_count() as nat;
        let p = |i: u32| self.used(i);
        self.lemma_counted();
        let x = lemma_many_lacks(p, n);
        let p1 = |i: u32| self.used(i) || i == x;
        lemma_many_more(p, p1, n, x);
        let y = lemma_many_lacks(p1, n);
        let p2 = |i: u32| self.used(i) || i == x || i == y;
        lemma_many_more(p1, p2, n, y);
        let z = lemma_many_lacks(p2, n);
        (x, y, z)
    }

    /// A reservation moves one free slot to the reserved ones.
    pub proof fn law_reserve_counts(a: &Self, b: &Self, s: u32)
        requires
            a.wf(),
            b.wf(),
            b.same_layout(a),
            a.is_free(s),
            forall|i: u32| #[trigger] b.used(i) == a.used(i),
            forall|i: u32| #[trigger] b.reserved(i) == (a.reserved(i) || i == s),
        ensures
            b.used_count() == a.used_count(),
            b.reserved_count() == a.reserved_count() + 1,
            b.taken_count() == a.taken_count() + 1,
    {
        let n = a.slot_count() as nat;
        a.lemma_counted();
        b.lemma_counted();
        lemma_many_same(|i: u32| a.used(i), |i: u32| b.used(i), n);
        lemma_many_more(|i: u32| a.reserved(i), |i: u32| b.reserved(i), n, s);
        lemma_many_more(|i: u32| !a.is_free(i), |i: u32| !b.is_free(i), n, s);
    }

    /// Releasing a reserved slot takes the reservation back.
    pub proof fn law_release_counts(a: &Self, b: &Self, s: u32)
        requires
            a.wf(),
            b.wf(),
            b.same_layout(a),
            a.disjoint(),
            a.reserved(s),
            forall|i: u32| #[trigger] b.used(i) == a.used(i),
            forall|i: u32| #[trigger] b.reserved(i) == (a.reserved(i) && i != s),
        ensures
            b.used_count() == a.used_count(),
            b.reserved_count() == a.reserved_count() - 1,
            b.taken_count() == a.taken_count() - 1,
    {
        let n = a.slot_count() as nat;
        a.lemma_counted();
        b.lemma_counted();
        lemma_many_same(|i: u32| a.used(i), |i: u32| b.used(i), n);
        lemma_many_more(|i: u32| b.reserved(i), |i: u32| a.reserved(i), n, s);
        lemma_many_more(|i: u32| !b.is_free(i), |i: u32| !a.is_free(i), n, s);
    }

    /// Committing a reserved slot makes it a used one.
    pub proof fn law_commit_counts(a: &Self, b: &Self, s: u32)
        requires
            a.wf(),
            b.wf(),
            b.same_layout(a),
            a.disjoint(),
            a.reserved(s),
            forall|i: u32| #[trigger]
                b.used(i) == (a.used(i) || (i == s && i < a.slot_count())),
            forall|i: u32| #[trigger] b.reserved(i) == (a.reserved(i) && i != s),
        ensures
            b.used_count() == a.used_count() + 1,
            b.reserved_count() == a.reserved_count() - 1,
            b.taken_count() == a.taken_count(),
    {
        let n = a.slot_count() as nat;
        a.lemma_counted();
        b.lemma_counted();
        lemma_many_more(|i: u32| a.used(i), |i: u32| b.used(i), n, s);
        lemma_many_more(|i: u32| b.reserved(i), |i: u32| a.reserved(i), n, s);
        lemma_many_same(|i: u32| !a.is_free(i), |i: u32| !b.is_free(i), n);
    }

    /// A used slot is one of the slots.
    pub proof fn lemma_used_below(&self, i: u32)
        ensures
            self.used(i) ==> i < self.slot_count(),
    {
    }

    /// The counts keep within the slots.
    pub proof fn lemma_counts(&self)
        requires
            self.wf(),
        ensures
            self.taken_count() <= self.slot_count() <= MAX_SLOTS,
            self.used_count() <= self.slot_count(),
            self.reserved_count() <= self.slot_count(),
    {
        lemma_count_bound(self.used | self.reserved, self.slots as nat);
        lemma_count_bound(self.used, self.slots as nat);
        lemma_count_bound(self.reserved, self.slots as nat);
    }

    /// An allocator with no region: every search fails until
    /// [`layout`](Self::layout) gives it one.
    #[must_use]
    pub fn new() -> (r: Self)
        ensures
            r.wf(),
            r.slot_count() == 0,
            r.blocks_per_slot() == 0,
    {
        proof {
            assert forall|i: u32| 0 <= i < 64 implies !#[trigger] bit_set(0u64, i) by {
                lemma_or_bits(0, 0, i);
            }
        }
        SlotMap { base: 0, slot_blocks: 0, slots: 0, used: 0, reserved: 0, hint: 0 }
    }

    /// Lays the region `[start, end)` out as `slots` equal slots, all free.
    /// Blocks past the last whole slot stay unused. `None` when `slots` is 0
    /// or above [`MAX_SLOTS`], or when a slot would hold fewer than
    /// `min_blocks` blocks.
    #[must_use]
    pub fn layout(start: u64, end: u64, slots: usize, min_blocks: u64) -> (r: Option<Self>)
        ensures
            r is Some <==> 0 < slots <= MAX_SLOTS && start < end && (end - start) / (slots as int)
                > 0 && (end - start) / (slots as int) >= min_blocks,
            r matches Some(m) ==> {
                &&& m.wf()
                &&& m.slot_count() == slots
                &&& m.blocks_per_slot() == (end - start) / (slots as int)
                &&& forall|i: int|
                    #[trigger] m.base_of(i) == start + i * ((end - start) / (slots as int))
                &&& m.base_of(slots as int) <= end
                &&& forall|i: u32| i < slots ==> #[trigger] m.is_free(i)
                &&& forall|i: u32| !#[trigger] m.used(i)
                &&& forall|i: u32| !#[trigger] m.reserved(i)
                &&& m.next_hint() == 0
            },
    {
        if slots == 0 || slots > MAX_SLOTS || end <= start {
            return None;
        }
        let n64: u64 = slots as u64;
        let n32: u32 = slots as u32;
        let slot_blocks: u64 = (end - start) / n64;
        if slot_blocks == 0 || slot_blocks < min_blocks {
            return None;
        }
        let m = SlotMap { base: start, slot_blocks, slots: n32, used: 0, reserved: 0, hint: 0 };
        proof {
            let span = (end - start) as int;
            assert((slots as int) * (span / (slots as int)) <= span) by (nonlinear_arith)
                requires
                    slots > 0,
                    span >= 0,
            ;
            assert(m.slots * m.slot_blocks == (slots as int) * (span / (slots as int)));
            assert forall|i: u32| 0 <= i < 64 implies !#[trigger] bit_set(0u64, i) by {
                lemma_or_bits(0, 0, i);
            }
        }
        Some(m)
    }

    /// Blocks per slot: the largest table the region can hold.
    #[must_use]
    pub fn slot_blocks(&self) -> (r: u64)
        ensures
            r == self.blocks_per_slot(),
    {
        self.slot_blocks
    }

    /// Number of slots.
    #[must_use]
    pub fn slots(&self) -> (r: u32)
        ensures
            r == self.slot_count(),
    {
        self.slots
    }

    /// First block of `slot`.
    #[must_use]
    pub fn slot_base(&self, slot: u32) -> (r: u64)
        requires
            self.base_of(slot as int) <= u64::MAX,
        ensures
            r == self.base_of(slot as int),
    {
        proof {
            assert(0 <= slot * self.slot_blocks) by (nonlinear_arith)
                requires
                    self.slot_blocks >= 0,
            ;
        }
        self.base + slot as u64 * self.slot_blocks
    }

    /// The slot holding the run `[first_block, first_block + blocks)`
    /// entirely, or `None` when the run is empty, lies outside the laid-out
    /// slots, or crosses a slot boundary.
    #[must_use]
    pub fn slot_of(&self, first_block: u64, blocks: u64) -> (r: Option<u32>)
        requires
            self.wf(),
        ensures
            match r {
                Some(i) => self.holds(i, first_block, blocks),
                None => forall|i: u32| !#[trigger] self.holds(i, first_block, blocks),
            },
    {
        if self.slot_blocks == 0 || first_block < self.base || blocks == 0 {
            proof {
                assert forall|i: u32| !#[trigger] self.holds(i, first_block, blocks) by {
                    if self.holds(i, first_block, blocks) {
                        self.law_slots_tile(i as int, self.slots as int);
                        assert(0 <= i * self.slot_blocks) by (nonlinear_arith)
                            requires
                                self.slot_blocks >= 0,
                        ;
                    }
                }
            }
            return None;
        }
        let slot: u64 = (first_block - self.base) / self.slot_blocks;
        let ghost b = self.slot_blocks as int;
        let ghost rel = (first_block - self.base) as int;
        proof {
            // The only candidate is the slot of the first block.
            assert(slot * b <= rel < (slot + 1) * b) by (nonlinear_arith)
                requires
                    b > 0,
                    rel >= 0,
                    slot == rel / b,
            ;
            assert forall|i: u32| #[trigger] self.holds(i, first_block, blocks) implies i
                == slot by {
                let k = i as int;
                let sl = slot as int;
                assert(k == sl) by (nonlinear_arith)
                    requires
                        k * b <= rel,
                        rel < (k + 1) * b,
                        sl * b <= rel,
                        rel < (sl + 1) * b,
                        b > 0,
                ;
            }
        }
        if slot >= self.slots as u64 {
            return None;
        }
        proof {
            self.law_slots_tile(slot as int, self.slots as int);
            assert(0 <= (slot + 1) * b) by (nonlinear_arith)
                requires
                    slot >= 0,
                    b > 0,
            ;
        }
        let slot_end: u64 = self.base + (slot + 1) * self.slot_blocks;
        if blocks <= u64::MAX - first_block && first_block + blocks <= slot_end {
            Some(slot as u32)
        } else {
            None
        }
    }

    fn bit(slot: u32) -> (r: u64)
        requires
            slot < 64,
        ensures
            r == 1u64 << slot,
    {
        1u64 << slot
    }

    /// Marks `slot` as holding a live table (the open-time rebuild).
    /// Returns `false`, changing nothing, when the slot is out of range or
    /// already used: two tables in one slot means a corrupt manifest.
    pub fn mark_used(&mut self, slot: u32) -> (r: bool)
        requires
            old(self).wf(),
        ensures
            final(self).wf(),
            final(self).same_layout(old(self)),
            final(self).next_hint() == old(self).next_hint(),
            r == (slot < old(self).slot_count() && !old(self).used(slot)),
            !r ==> *final(self) == *old(self),
            r ==> forall|i: u32| #[trigger]
                final(self).used(i) == (old(self).used(i) || i == slot),
            forall|i: u32| #[trigger] final(self).reserved(i) == old(self).reserved(i),
    {
        if slot >= self.slots || self.used & Self::bit(slot) != 0 {
            return false;
        }
        proof {
            assert forall|i: u32| i < 64 implies #[trigger] bit_set(self.used | (1u64 << slot), i)
                == (bit_set(self.used, i) || i == slot) by {
                lemma_set_bit(self.used, slot, i);
            }
        }
        self.used = self.used | Self::bit(slot);
        true
    }

    /// Restarts next-fit just past `slot` (open points it past the newest
    /// table, so allocation keeps rotating across reboots).
    pub fn set_hint_after(&mut self, slot: u32)
        requires
            old(self).wf(),
            slot < u32::MAX,
        ensures
            final(self).wf(),
            final(self).same_layout(old(self)),
            forall|i: u32| #[trigger] final(self).used(i) == old(self).used(i),
            forall|i: u32| #[trigger] final(self).reserved(i) == old(self).reserved(i),
            old(self).slot_count() > 0 ==> final(self).next_hint() == (slot + 1) % (old(
                self,
            ).slot_count() as int),
            old(self).slot_count() == 0 ==> *final(self) == *old(self),
    {
        if self.slots > 0 {
            self.hint = (slot + 1) % self.slots;
        }
    }

    /// The next free slot (neither used nor reserved), next-fit from the
    /// hint, without taking it.
    #[must_use]
    pub fn find_free(&self) -> (r: Option<u32>)
        requires
            self.wf(),
        ensures
            match r {
                Some(s) => self.is_free(s) && exists|k: int|
                    0 <= k < self.slot_count() && s == #[trigger] self.probe(k) && forall|j: int|
                        0 <= j < k ==> !self.is_free(#[trigger] self.probe(j)),
                None => forall|i: u32| !#[trigger] self.is_free(i),
            },
    {
        let taken: u64 = self.used | self.reserved;
        let mut i: u32 = 0;
        while i < self.slots
            invariant
                self.wf(),
                i <= self.slots,
                taken == self.used | self.reserved,
                forall|j: int| 0 <= j < i ==> !self.is_free(#[trigger] self.probe(j)),
            decreases self.slots - i,
        {
            let slot: u32 = (self.hint + i) % self.slots;
            proof {
                lemma_or_bits(self.used, self.reserved, slot);
            }
            assert(slot == self.probe(i as int));
            if taken & Self::bit(slot) == 0 {
                return Some(slot);
            }
            i = i + 1;
        }
        proof {
            assert forall|s: u32| !#[trigger] self.is_free(s) by {
                if self.is_free(s) {
                    let n = self.slots as int;
                    let k = if s >= self.hint {
                        s - self.hint
                    } else {
                        s + n - self.hint
                    };
                    vstd::arithmetic::div_mod::lemma_small_mod(s as nat, n as nat);
                    if s < self.hint {
                        vstd::arithmetic::div_mod::lemma_mod_add_multiples_vanish(s as int, n);
                    }
                    assert(self.probe(k) == s);
                }
            }
        }
        None
    }

    /// A table written into free `slot` became live (its manifest commit
    /// landed): free to used. Next-fit continues past it.
    pub fn claim(&mut self, slot: u32)
        requires
            old(self).wf(),
        ensures
            final(self).wf(),
            final(self).same_layout(old(self)),
            forall|i: u32| #[trigger]
                final(self).used(i) == (old(self).used(i) || (i == slot && i < old(
                    self,
                ).slot_count())),
            forall|i: u32| #[trigger] final(self).reserved(i) == old(self).reserved(i),
            slot < old(self).slot_count() ==> final(self).next_hint() == (slot + 1) % (old(
                self,
            ).slot_count() as int),
            slot >= old(self).slot_count() ==> *final(self) == *old(self),
    {
        if slot < self.slots {
            proof {
                assert forall|i: u32| i < 64 implies #[trigger] bit_set(
                    self.used | (1u64 << slot),
                    i,
                ) == (bit_set(self.used, i) || i == slot) by {
                    lemma_set_bit(self.used, slot, i);
                }
            }
            self.used = self.used | Self::bit(slot);
            self.hint = (slot + 1) % self.slots;
        }
    }

    /// Reserves the next free slot for a compaction output. The slot leaves
    /// the free set immediately.
    pub fn reserve(&mut self) -> (r: Option<u32>)
        requires
            old(self).wf(),
        ensures
            final(self).wf(),
            final(self).same_layout(old(self)),
            forall|i: u32| #[trigger] final(self).used(i) == old(self).used(i),
            match r {
                Some(s) => {
                    &&& old(self).is_free(s)
                    &&& exists|k: int|
                        0 <= k < old(self).slot_count() && s == #[trigger] old(self).probe(k)
                            && forall|j: int|
                            0 <= j < k ==> !old(self).is_free(#[trigger] old(self).probe(j))
                    &&& forall|i: u32| #[trigger]
                        final(self).reserved(i) == (old(self).reserved(i) || i == s)
                    &&& final(self).next_hint() == (s + 1) % (old(self).slot_count() as int)
                },
                None => {
                    &&& *final(self) == *old(self)
                    &&& forall|i: u32| !#[trigger] old(self).is_free(i)
                },
            },
    {
        match self.find_free() {
            Some(slot) => {
                proof {
                    assert forall|i: u32| i < 64 implies #[trigger] bit_set(
                        self.reserved | (1u64 << slot),
                        i,
                    ) == (bit_set(self.reserved, i) || i == slot) by {
                        lemma_set_bit(self.reserved, slot, i);
                    }
                }
                self.reserved = self.reserved | Self::bit(slot);
                self.hint = (slot + 1) % self.slots;
                Some(slot)
            },
            None => None,
        }
    }

    /// The output written into reserved `slot` became live: reserved to
    /// used.
    pub fn commit(&mut self, slot: u32)
        requires
            old(self).wf(),
        ensures
            final(self).wf(),
            final(self).same_layout(old(self)),
            final(self).next_hint() == old(self).next_hint(),
            forall|i: u32| #[trigger]
                final(self).used(i) == (old(self).used(i) || (i == slot && i < old(
                    self,
                ).slot_count())),
            forall|i: u32| #[trigger]
                final(self).reserved(i) == (old(self).reserved(i) && i != slot),
    {
        if slot < self.slots {
            proof {
                assert forall|i: u32| i < 64 implies #[trigger] bit_set(
                    self.used | (1u64 << slot),
                    i,
                ) == (bit_set(self.used, i) || i == slot) by {
                    lemma_set_bit(self.used, slot, i);
                }
                assert forall|i: u32| i < 64 implies #[trigger] bit_set(
                    self.reserved & !(1u64 << slot),
                    i,
                ) == (bit_set(self.reserved, i) && i != slot) by {
                    lemma_set_bit(self.reserved, slot, i);
                }
            }
            self.reserved = self.reserved & !Self::bit(slot);
            self.used = self.used | Self::bit(slot);
        }
    }

    /// A reservation was abandoned before its commit: reserved to free.
    pub fn release(&mut self, slot: u32)
        requires
            old(self).wf(),
        ensures
            final(self).wf(),
            final(self).same_layout(old(self)),
            final(self).next_hint() == old(self).next_hint(),
            forall|i: u32| #[trigger] final(self).used(i) == old(self).used(i),
            forall|i: u32| #[trigger]
                final(self).reserved(i) == (old(self).reserved(i) && i != slot),
    {
        if slot < self.slots {
            proof {
                assert forall|i: u32| i < 64 implies #[trigger] bit_set(
                    self.reserved & !(1u64 << slot),
                    i,
                ) == (bit_set(self.reserved, i) && i != slot) by {
                    lemma_set_bit(self.reserved, slot, i);
                }
            }
            self.reserved = self.reserved & !Self::bit(slot);
        }
    }

    /// Abandons every reservation (the in-flight compaction job was
    /// aborted).
    pub fn release_all(&mut self)
        requires
            old(self).wf(),
        ensures
            final(self).wf(),
            final(self).same_layout(old(self)),
            final(self).next_hint() == old(self).next_hint(),
            forall|i: u32| #[trigger] final(self).used(i) == old(self).used(i),
            forall|i: u32| !#[trigger] final(self).reserved(i),
    {
        proof {
            assert forall|i: u32| 0 <= i < 64 implies !#[trigger] bit_set(0u64, i) by {
                lemma_or_bits(0, 0, i);
            }
        }
        self.reserved = 0;
    }

    /// A live table left the manifest (compaction input, archive): used to
    /// free. Call strictly after the commit that dropped it.
    pub fn free(&mut self, slot: u32)
        requires
            old(self).wf(),
        ensures
            final(self).wf(),
            final(self).same_layout(old(self)),
            final(self).next_hint() == old(self).next_hint(),
            forall|i: u32| #[trigger] final(self).used(i) == (old(self).used(i) && i != slot),
            forall|i: u32| #[trigger] final(self).reserved(i) == old(self).reserved(i),
    {
        if slot < self.slots {
            proof {
                assert forall|i: u32| i < 64 implies #[trigger] bit_set(
                    self.used & !(1u64 << slot),
                    i,
                ) == (bit_set(self.used, i) && i != slot) by {
                    lemma_set_bit(self.used, slot, i);
                }
            }
            self.used = self.used & !Self::bit(slot);
        }
    }

    /// Whether a live table occupies `slot`.
    #[must_use]
    pub fn is_used(&self, slot: u32) -> (r: bool)
        requires
            self.wf(),
        ensures
            r == self.used(slot),
    {
        slot < self.slots && self.used & Self::bit(slot) != 0
    }

    /// Whether `slot` is reserved by the in-flight compaction job.
    #[must_use]
    pub fn is_reserved(&self, slot: u32) -> (r: bool)
        requires
            self.wf(),
        ensures
            r == self.reserved(slot),
    {
        slot < self.slots && self.reserved & Self::bit(slot) != 0
    }

    /// Slots holding live tables.
    #[must_use]
    pub fn used_slots(&self) -> (r: u32)
        requires
            self.wf(),
        ensures
            r == self.used_count(),
    {
        count_bits(self.used, self.slots)
    }

    /// Slots reserved by the in-flight compaction job.
    #[must_use]
    pub fn reserved_slots(&self) -> (r: u32)
        requires
            self.wf(),
        ensures
            r == self.reserved_count(),
    {
        count_bits(self.reserved, self.slots)
    }

    /// Slots neither used nor reserved.
    #[must_use]
    pub fn free_slots(&self) -> (r: u32)
        requires
            self.wf(),
        ensures
            r == self.slot_count() - self.taken_count(),
            r > 0 <==> exists|i: u32| #[trigger] self.is_free(i),
    {
        let taken: u32 = count_bits(self.used | self.reserved, self.slots);
        proof {
            let m = self.used | self.reserved;
            lemma_count_bound(m, self.slots as nat);
            assert forall|i: u32| i < self.slots implies #[trigger] bit_set(m, i)
                == !self.is_free(i) by {
                lemma_or_bits(self.used, self.reserved, i);
            }
            if exists|i: u32| #[trigger] self.is_free(i) {
                let i = choose|i: u32| #[trigger] self.is_free(i);
                assert(i < self.slots as nat && !bit_set(m, i));
            }
        }
        self.slots - taken
    }
}

} // verus!

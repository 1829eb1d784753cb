//! Fixed-capacity sorted memtable over a bump arena.
//!
//! Slots are kept sorted by key bytes, with sequence numbers descending
//! within each key's run. Key/value bytes live in a single bump-allocated
//! arena. Every mutation appends a fresh slot, nothing is ever replaced in
//! place, so a key's run holds its full version history newest-first.
//! Snapshot reads need those older versions; the live view simply takes the
//! run's first entry. Flush drains the runs into an `SSTable` in order,
//! preserving the per-key sequence ordering the read paths rely on.
//!
//! A range tombstone occupies a slot of its own: its key is the inclusive
//! start of the range and its value the exclusive end. It is no version of
//! its start key.

use vstd::prelude::*;

use crate::bytes::{
    bytes_eq, bytes_lt, copy_into, lemma_lex_irreflexive, lemma_lex_le_le, lemma_lex_le_lt,
    lemma_lex_total, lex_le, lex_lt, spliced,
};
use crate::error::Error;

verus! {

/// One mutation as the memtable and the tables hold it.
pub struct Rec {
    /// Key bytes; the inclusive start for a range tombstone.
    pub key: Seq<u8>,
    /// Value bytes, empty for a point tombstone; the exclusive end for a
    /// range tombstone.
    pub val: Seq<u8>,
    /// Sequence number of the mutation.
    pub seq: u64,
    /// True for a point deletion marker.
    pub tombstone: bool,
    /// True for a range tombstone.
    pub range_del: bool,
    /// Absolute expiry tick; 0 = no expiry.
    pub expire_at: u64,
}

/// Keys never descend along `v`.
pub open spec fn key_sorted(v: Seq<Rec>) -> bool {
    forall|i: int, j: int| 0 <= i <= j < v.len() ==> #[trigger] lex_le(v[i].key, #[trigger] v[j].key)
}

/// Sequence numbers descend strictly within each key's run.
pub open spec fn runs_newest_first(v: Seq<Rec>) -> bool {
    forall|i: int, j: int|
        #![trigger v[i], v[j]]
        0 <= i < j < v.len() && v[i].key == v[j].key ==> v[i].seq > v[j].seq
}

/// How many leading entries of `v` have a key below `k`.
pub open spec fn lower(v: Seq<Rec>, k: Seq<u8>) -> int
    decreases v.len(),
{
    if v.len() > 0 && lex_lt(v[0].key, k) {
        1 + lower(v.skip(1), k)
    } else {
        0
    }
}

/// `v` with `r` in front of its key's run.
pub open spec fn with_rec(v: Seq<Rec>, r: Rec) -> Seq<Rec> {
    v.insert(lower(v, r.key), r)
}

/// Arena bytes the entries of `v` take.
pub open spec fn arena_used(v: Seq<Rec>) -> nat
    decreases v.len(),
{
    if v.len() == 0 {
        0
    } else {
        v[0].key.len() + v[0].val.len() + arena_used(v.skip(1))
    }
}

/// The highest sequence number in `v`, 0 when empty.
pub open spec fn top_seq(v: Seq<Rec>) -> u64
    decreases v.len(),
{
    if v.len() == 0 {
        0
    } else {
        let t = top_seq(v.skip(1));
        if v[0].seq > t {
            v[0].seq
        } else {
            t
        }
    }
}

/// The lowest sequence number in `v`, `u64::MAX` when empty.
pub open spec fn bottom_seq(v: Seq<Rec>) -> u64
    decreases v.len(),
{
    if v.len() == 0 {
        u64::MAX
    } else {
        let t = bottom_seq(v.skip(1));
        if v[0].seq < t {
            v[0].seq
        } else {
            t
        }
    }
}

/// Entry `i` is a version of `key` that a read at `max_seq` may observe.
pub open spec fn visible_version(v: Seq<Rec>, key: Seq<u8>, max_seq: u64, i: int) -> bool {
    &&& 0 <= i < v.len()
    &&& v[i].key == key
    &&& !v[i].range_del
    &&& v[i].seq <= max_seq
}

/// Entry `i` is the first version of `key` at or below `max_seq`.
pub open spec fn is_hit(v: Seq<Rec>, key: Seq<u8>, max_seq: u64, i: int) -> bool {
    &&& visible_version(v, key, max_seq, i)
    &&& forall|j: int| 0 <= j < i ==> !#[trigger] visible_version(v, key, max_seq, j)
}

/// Entry `i` is a range tombstone at or below `max_seq` that covers `key`.
pub open spec fn covers_at(v: Seq<Rec>, key: Seq<u8>, max_seq: u64, i: int) -> bool {
    &&& 0 <= i < v.len()
    &&& v[i].range_del
    &&& v[i].seq <= max_seq
    &&& lex_le(v[i].key, key)
    &&& lex_lt(key, v[i].val)
}

/// `best` is the highest sequence of a range tombstone of `v` at or below
/// `max_seq` that covers `key`.
pub open spec fn is_cover(v: Seq<Rec>, key: Seq<u8>, max_seq: u64, best: Option<u64>) -> bool {
    match best {
        Some(q) => {
            &&& exists|i: int| #[trigger] covers_at(v, key, max_seq, i) && v[i].seq == q
            &&& forall|i: int| #[trigger] covers_at(v, key, max_seq, i) ==> v[i].seq <= q
        },
        None => forall|i: int| !#[trigger] covers_at(v, key, max_seq, i),
    }
}

/// Where `lower` falls in a key-sorted sequence: everything before sorts
/// below `k`, everything from there on does not.
pub proof fn lemma_lower(v: Seq<Rec>, k: Seq<u8>)
    requires
        key_sorted(v),
    ensures
        0 <= lower(v, k) <= v.len(),
        forall|i: int| 0 <= i < lower(v, k) ==> lex_lt(#[trigger] v[i].key, k),
        forall|i: int| lower(v, k) <= i < v.len() ==> lex_le(k, #[trigger] v[i].key),
    decreases v.len(),
{
    if v.len() > 0 && lex_lt(v[0].key, k) {
        let t = v.skip(1);
        assert forall|i: int, j: int| 0 <= i <= j < t.len() implies #[trigger] lex_le(
            t[i].key,
            #[trigger] t[j].key,
        ) by {
            assert(lex_le(v[i + 1].key, v[j + 1].key));
        }
        lemma_lower(t, k);
        assert forall|i: int| 0 <= i < lower(v, k) implies lex_lt(#[trigger] v[i].key, k) by {
            if i > 0 {
                assert(lex_lt(t[i - 1].key, k));
            }
        }
        assert forall|i: int| lower(v, k) <= i < v.len() implies lex_le(k, #[trigger] v[i].key) by {
            assert(lex_le(k, t[i - 1].key));
        }
    } else {
        assert forall|i: int| 0 <= i < v.len() implies lex_le(k, #[trigger] v[i].key) by {
            assert(lex_le(v[0].key, v[i].key));
            lemma_lex_le_le(k, v[0].key, v[i].key);
        }
    }
}

/// A position with smaller keys before it and no smaller key after it is
/// the one `lower` names.
pub proof fn lemma_lower_unique(v: Seq<Rec>, k: Seq<u8>, p: int)
    requires
        key_sorted(v),
        0 <= p <= v.len(),
        forall|i: int| 0 <= i < p ==> lex_lt(#[trigger] v[i].key, k),
        forall|i: int| p <= i < v.len() ==> lex_le(k, #[trigger] v[i].key),
    ensures
        p == lower(v, k),
{
    lemma_lower(v, k);
    let q = lower(v, k);
    if p < q {
        assert(lex_lt(v[p].key, k));
    } else if q < p {
        assert(lex_lt(v[q].key, k));
    }
}

/// Adding an entry keeps keys sorted; a newer one keeps runs newest-first.
pub proof fn law_with_rec_keeps_order(v: Seq<Rec>, r: Rec)
    requires
        key_sorted(v),
    ensures
        key_sorted(with_rec(v, r)),
        with_rec(v, r).len() == v.len() + 1,
        runs_newest_first(v) && (forall|i: int|
            0 <= i < v.len() && #[trigger] v[i].key == r.key ==> v[i].seq < r.seq)
            ==> runs_newest_first(with_rec(v, r)),
{
    lemma_lower(v, r.key);
    let p = lower(v, r.key);
    let w = with_rec(v, r);
    assert forall|i: int, j: int| 0 <= i <= j < w.len() implies #[trigger] lex_le(
        w[i].key,
        #[trigger] w[j].key,
    ) by {
        let a = if i < p { i } else { i - 1 };
        let b = if j < p { j } else { j - 1 };
        if i == p && j == p {
            lemma_lex_irreflexive(r.key);
        } else if i == p {
            assert(w[j] == v[b]);
        } else if j == p {
            assert(w[i] == v[a]);
            assert(lex_lt(v[a].key, r.key));
            if lex_lt(r.key, v[a].key) {
                crate::bytes::lemma_lex_asymmetric(v[a].key, r.key);
            }
        } else {
            assert(w[i] == v[a]);
            assert(w[j] == v[b]);
            assert(lex_le(v[a].key, v[b].key));
        }
    }
    if runs_newest_first(v) && (forall|i: int|
        0 <= i < v.len() && #[trigger] v[i].key == r.key ==> v[i].seq < r.seq) {
        assert forall|i: int, j: int|
            #![trigger w[i], w[j]]
            0 <= i < j < w.len() && w[i].key == w[j].key implies w[i].seq > w[j].seq by {
            let a = if i < p { i } else { i - 1 };
            let b = if j < p { j } else { j - 1 };
            if i == p {
                assert(w[j] == v[b]);
            } else if j == p {
                assert(w[i] == v[a]);
                assert(lex_lt(v[a].key, r.key));
                lemma_lex_irreflexive(r.key);
            } else {
                assert(w[i] == v[a]);
                assert(w[j] == v[b]);
            }
        }
    }
}

pub proof fn lemma_arena_insert(v: Seq<Rec>, p: int, r: Rec)
    requires
        0 <= p <= v.len(),
    ensures
        arena_used(v.insert(p, r)) == arena_used(v) + r.key.len() + r.val.len(),
    decreases v.len(),
{
    let w = v.insert(p, r);
    if p == 0 {
        assert(w.skip(1) =~= v);
    } else {
        assert(w.skip(1) =~= v.skip(1).insert(p - 1, r));
        lemma_arena_insert(v.skip(1), p - 1, r);
    }
}

pub proof fn lemma_top_insert(v: Seq<Rec>, p: int, r: Rec)
    requires
        0 <= p <= v.len(),
    ensures
        top_seq(v.insert(p, r)) == (if r.seq > top_seq(v) {
            r.seq
        } else {
            top_seq(v)
        }),
    decreases v.len(),
{
    let w = v.insert(p, r);
    if p == 0 {
        assert(w.skip(1) =~= v);
    } else {
        assert(w.skip(1) =~= v.skip(1).insert(p - 1, r));
        lemma_top_insert(v.skip(1), p - 1, r);
    }
}

/// No entry exceeds the top sequence.
pub proof fn lemma_top_bound(v: Seq<Rec>, i: int)
    requires
        0 <= i < v.len(),
    ensures
        v[i].seq <= top_seq(v),
        v[i].seq >= bottom_seq(v),
    decreases v.len(),
{
    if i > 0 {
        lemma_top_bound(v.skip(1), i - 1);
        assert(v.skip(1)[i - 1] == v[i]);
    }
}

/// A point read observes, of all versions at or below its watermark, the
/// one with the highest sequence number.
pub proof fn law_hit_is_newest(v: Seq<Rec>, key: Seq<u8>, max_seq: u64, i: int, j: int)
    requires
        runs_newest_first(v),
        is_hit(v, key, max_seq, i),
        visible_version(v, key, max_seq, j),
    ensures
        v[j].seq <= v[i].seq,
{
    if j > i {
        assert(v[i].key == v[j].key);
    }
}

/// A cover in the memtable is that of the newest range tombstone in view
/// that holds the key, from its start on and short of its end.
pub proof fn law_memtable_cover(v: Seq<Rec>, key: Seq<u8>, max_seq: u64, r: Option<u64>, i: int)
    requires
        is_cover(v, key, max_seq, r),
        0 <= i < v.len(),
        v[i].range_del,
        v[i].seq <= max_seq,
        lex_le(v[i].key, key),
        lex_lt(key, v[i].val),
    ensures
        r matches Some(s) && v[i].seq <= s <= max_seq,
{
    assert(covers_at(v, key, max_seq, i));
}

/// The limits of a table's shape.
pub open spec fn shape_ok(cap: usize, arena: usize, key_max: usize, val_max: usize) -> bool {
    &&& cap >= 1
    &&& arena <= u32::MAX
    &&& 1 <= key_max <= 0xFFFF
    &&& val_max <= 0xFFFF
}

/// Why a mutation with a key of `klen` bytes and a payload of `vlen` bytes
/// (of at most `vmax`) does not fit a table holding `v`, if it does not.
pub open spec fn room_for<E>(
    v: Seq<Rec>,
    cap: usize,
    arena: usize,
    klen: nat,
    key_max: usize,
    payload: Result<nat, Error<E>>,
) -> Result<(), Error<E>> {
    if klen == 0 {
        Err(Error::EmptyKey)
    } else if klen > key_max {
        Err(Error::KeyTooLarge { len: klen as usize, max: key_max })
    } else {
        match payload {
            Err(e) => Err(e),
            Ok(vlen) => {
                if v.len() >= cap {
                    Err(Error::TableFull)
                } else if arena_used(v) + klen + vlen > arena {
                    Err(Error::ArenaFull)
                } else {
                    Ok(())
                }
            },
        }
    }
}

/// The value bytes of a put or delete, or why they are too long.
pub open spec fn value_payload<E>(vlen: nat, tombstone: bool, val_max: usize) -> Result<
    nat,
    Error<E>,
> {
    if tombstone {
        Ok(0)
    } else if vlen > val_max {
        Err(Error::ValueTooLarge { len: vlen as usize, max: val_max })
    } else {
        Ok(vlen)
    }
}

/// The end bytes of a range tombstone, or why they are too long.
pub open spec fn end_payload<E>(elen: nat, key_max: usize) -> Result<nat, Error<E>> {
    if elen > key_max {
        Err(Error::KeyTooLarge { len: elen as usize, max: key_max })
    } else {
        Ok(elen)
    }
}

/// The entry a put or delete leaves.
pub open spec fn point_rec(
    key: Seq<u8>,
    val: Seq<u8>,
    seq: u64,
    tombstone: bool,
    expire_at: u64,
) -> Rec {
    Rec {
        key,
        val: if tombstone {
            Seq::empty()
        } else {
            val
        },
        seq,
        tombstone,
        range_del: false,
        expire_at: if tombstone {
            0
        } else {
            expire_at
        },
    }
}

/// The entry a range delete leaves.
pub open spec fn range_rec(start: Seq<u8>, end: Seq<u8>, seq: u64) -> Rec {
    Rec { key: start, val: end, seq, tombstone: false, range_del: true, expire_at: 0 }
}

/// One slot: where its key and value bytes live, and the mutation's tags.
#[derive(Debug, Clone, Copy)]
struct Slot {
    key_off: u32,
    key_len: u16,
    val_off: u32,
    val_len: u16,
    seq: u64,
    tombstone: bool,
    range_del: bool,
    expire_at: u64,
}

impl Slot {
    /// The slot's bytes lie in the used part of the arena.
    spec fn fits(&self, used: int) -> bool {
        &&& self.key_off + self.key_len <= used
        &&& self.val_off + self.val_len <= used
    }

    spec fn rec(&self, arena: Seq<u8>) -> Rec {
        Rec {
            key: arena.subrange(self.key_off as int, self.key_off + self.key_len),
            val: arena.subrange(self.val_off as int, self.val_off + self.val_len),
            seq: self.seq,
            tombstone: self.tombstone,
            range_del: self.range_del,
            expire_at: self.expire_at,
        }
    }
}

/// A point lookup's result, borrowing the table.
#[derive(Debug, Clone, Copy)]
pub struct Lookup<'a> {
    /// Value bytes (empty for tombstones).
    pub val: &'a [u8],
    /// Sequence number of the mutation that wrote this entry.
    pub seq: u64,
    /// True when this entry is a deletion marker.
    pub tombstone: bool,
    /// Absolute expiry tick; 0 = no expiry.
    pub expire_at: u64,
}

/// One memtable entry, borrowing the table.
#[derive(Debug, Clone, Copy)]
pub struct Entry<
    'a,
    const CAP: usize,
    const ARENA: usize,
    const KEY_MAX: usize,
    const VAL_MAX: usize,
> {
    /// Key bytes; the inclusive start for a range tombstone.
    pub key: &'a [u8],
    /// Value bytes (empty for tombstones); the exclusive end for a range
    /// tombstone.
    pub val: &'a [u8],
    /// Sequence number of the mutation that wrote this entry.
    pub seq: u64,
    /// True when this entry is a deletion marker.
    pub tombstone: bool,
    /// True when this entry is a range tombstone.
    pub range_del: bool,
    /// Absolute expiry tick; 0 = no expiry.
    pub expire_at: u64,
}

impl<'a, const CAP: usize, const ARENA: usize, const KEY_MAX: usize, const VAL_MAX: usize> Entry<
    'a,
    CAP,
    ARENA,
    KEY_MAX,
    VAL_MAX,
> {
    /// The mutation the entry holds.
    pub open spec fn view(&self) -> Rec {
        Rec {
            key: self.key@,
            val: self.val@,
            seq: self.seq,
            tombstone: self.tombstone,
            range_del: self.range_del,
            expire_at: self.expire_at,
        }
    }
}

/// Walks a memtable's entries in key order.
pub struct Iter<
    'a,
    const CAP: usize,
    const ARENA: usize,
    const KEY_MAX: usize,
    const VAL_MAX: usize,
> {
    table: &'a MemTable<CAP, ARENA, KEY_MAX, VAL_MAX>,
    idx: usize,
}

impl<'a, const CAP: usize, const ARENA: usize, const KEY_MAX: usize, const VAL_MAX: usize> Iter<
    'a,
    CAP,
    ARENA,
    KEY_MAX,
    VAL_MAX,
> {
    /// The entries still to come.
    pub closed spec fn rest(&self) -> Seq<Rec> {
        self.table@.skip(self.idx as int)
    }

    /// The position lies in the table.
    pub closed spec fn wf(&self) -> bool {
        self.table.wf() && self.idx <= self.table@.len()
    }

    /// The next entry, or `None` at the end.
    pub fn next(&mut self) -> (r: Option<Entry<'a, CAP, ARENA, KEY_MAX, VAL_MAX>>)
        requires
            old(self).wf(),
        ensures
            final(self).wf(),
            match r {
                Some(e) => {
                    &&& old(self).rest().len() > 0
                    &&& e@ == old(self).rest()[0]
                    &&& final(self).rest() == old(self).rest().skip(1)
                },
                None => old(self).rest().len() == 0 && final(self).rest() == old(self).rest(),
            },
    {
        let table: &'a MemTable<CAP, ARENA, KEY_MAX, VAL_MAX> = self.table;
        let r = table.slot_view(self.idx);
        if r.is_some() {
            self.idx = self.idx + 1;
            assert(self.rest() =~= old(self).rest().skip(1));
        }
        r
    }
}

/// Fixed-capacity sorted table of mutations.
pub struct MemTable<
    const CAP: usize,
    const ARENA: usize,
    const KEY_MAX: usize,
    const VAL_MAX: usize,
> {
    slots: [Slot; CAP],
    len: usize,
    arena: [u8; ARENA],
    arena_len: usize,
    max_seq: u64,
}

impl<const CAP: usize, const ARENA: usize, const KEY_MAX: usize, const VAL_MAX: usize> Default
    for MemTable<CAP, ARENA, KEY_MAX, VAL_MAX> {
    fn default() -> (r: Self)
        ensures
            shape_ok(CAP, ARENA, KEY_MAX, VAL_MAX) ==> r.wf(),
            r@ == Seq::<Rec>::empty(),
    {
        MemTable::empty_table()
    }
}

impl<const CAP: usize, const ARENA: usize, const KEY_MAX: usize, const VAL_MAX: usize> View
    for MemTable<CAP, ARENA, KEY_MAX, VAL_MAX> {
    type V = Seq<Rec>;

    /// The entries, sorted by key.
    closed spec fn view(&self) -> Seq<Rec> {
        Seq::new(self.len as nat, |i: int| self.slots@[i].rec(self.arena@))
    }
}

impl<
    const CAP: usize,
    const ARENA: usize,
    const KEY_MAX: usize,
    const VAL_MAX: usize,
> MemTable<CAP, ARENA, KEY_MAX, VAL_MAX> {
    /// Slots and arena are within bounds, every slot's bytes are in the used
    /// arena, and the entries are sorted by key with bounded sizes.
    pub closed spec fn wf(&self) -> bool {
        &&& shape_ok(CAP, ARENA, KEY_MAX, VAL_MAX)
        &&& self.len <= CAP
        &&& self.arena_len <= ARENA
        &&& forall|i: int|
            0 <= i < self.len ==> (#[trigger] self.slots@[i]).fits(self.arena_len as int)
        &&& key_sorted(self@)
        &&& arena_used(self@) == self.arena_len
        &&& top_seq(self@) == self.max_seq
        &&& forall|i: int| 0 <= i < self@.len() ==> Self::rec_ok(#[trigger] self@[i])
    }

    /// Sizes and tags an entry can have.
    pub open spec fn rec_ok(r: Rec) -> bool {
        &&& 1 <= r.key.len() <= KEY_MAX
        &&& r.range_del ==> r.val.len() <= KEY_MAX && !r.tombstone && r.expire_at == 0
        &&& !r.range_del ==> r.val.len() <= VAL_MAX
        &&& r.tombstone ==> r.val.len() == 0 && r.expire_at == 0
    }

    /// What every well-formed table satisfies.
    pub proof fn lemma_wf(&self)
        requires
            self.wf(),
        ensures
            shape_ok(CAP, ARENA, KEY_MAX, VAL_MAX),
            self@.len() <= CAP,
            arena_used(self@) <= ARENA,
            key_sorted(self@),
            forall|i: int| 0 <= i < self@.len() ==> Self::rec_ok(#[trigger] self@[i]),
    {
    }

    fn empty_table() -> (r: Self)
        ensures
            shape_ok(CAP, ARENA, KEY_MAX, VAL_MAX) ==> r.wf(),
            r@ == Seq::<Rec>::empty(),
    {
        let empty = Slot {
            key_off: 0,
            key_len: 0,
            val_off: 0,
            val_len: 0,
            seq: 0,
            tombstone: false,
            range_del: false,
            expire_at: 0,
        };
        let r = MemTable {
            slots: [empty; CAP],
            len: 0,
            arena: [0u8; ARENA],
            arena_len: 0,
            max_seq: 0,
        };
        assert(r@ =~= Seq::<Rec>::empty());
        r
    }

    /// An empty table.
    #[must_use]
    pub fn new() -> (r: Self)
        requires
            shape_ok(CAP, ARENA, KEY_MAX, VAL_MAX),
        ensures
            r.wf(),
            r@ == Seq::<Rec>::empty(),
    {
        MemTable::empty_table()
    }

    /// Number of entries, all versions counted.
    #[must_use]
    pub fn len(&self) -> (r: usize)
        requires
            self.wf(),
        ensures
            r == self@.len(),
    {
        self.len
    }

    /// Whether the table holds no entry.
    #[must_use]
    pub fn is_empty(&self) -> (r: bool)
        requires
            self.wf(),
        ensures
            r == (self@.len() == 0),
    {
        self.len == 0
    }

    /// Arena bytes in use.
    #[must_use]
    pub fn arena_len(&self) -> (r: usize)
        requires
            self.wf(),
        ensures
            r == arena_used(self@),
    {
        self.arena_len
    }

    /// Highest sequence number inserted since the last clear (0 when empty).
    #[must_use]
    pub fn max_seq(&self) -> (r: u64)
        requires
            self.wf(),
        ensures
            r == top_seq(self@),
    {
        self.max_seq
    }

    /// Lowest sequence number held, `u64::MAX` when empty.
    #[must_use]
    pub fn min_seq(&self) -> (r: u64)
        requires
            self.wf(),
        ensures
            r == bottom_seq(self@),
    {
        let mut m: u64 = u64::MAX;
        let mut i: usize = self.len;
        assert(self@.skip(self.len as int) =~= Seq::<Rec>::empty());
        while i > 0
            invariant
                self.wf(),
                i <= self.len,
                m == bottom_seq(self@.skip(i as int)),
            decreases i,
        {
            i = i - 1;
            let ghost s = self@.skip(i as int);
            assert(s.skip(1) =~= self@.skip(i + 1));
            assert(s[0] == self@[i as int]);
            if self.slots[i].seq < m {
                m = self.slots[i].seq;
            }
        }
        assert(self@.skip(0) =~= self@);
        m
    }

    /// Empties the table.
    pub fn clear(&mut self)
        requires
            old(self).wf(),
        ensures
            final(self).wf(),
            final(self)@ == Seq::<Rec>::empty(),
    {
        self.len = 0;
        self.arena_len = 0;
        self.max_seq = 0;
        assert(self@ =~= Seq::<Rec>::empty());
    }

    fn slot_key(&self, i: usize) -> (r: &[u8])
        requires
            self.wf(),
            i < self@.len(),
        ensures
            r@ == self@[i as int].key,
    {
        let slot: Slot = self.slots[i];
        assert(slot.fits(self.arena_len as int));
        let off: usize = slot.key_off as usize;
        let len: usize = slot.key_len as usize;
        &self.arena[off..off + len]
    }

    fn slot_val(&self, i: usize) -> (r: &[u8])
        requires
            self.wf(),
            i < self@.len(),
        ensures
            r@ == self@[i as int].val,
    {
        let slot: Slot = self.slots[i];
        assert(slot.fits(self.arena_len as int));
        let off: usize = slot.val_off as usize;
        let len: usize = slot.val_len as usize;
        &self.arena[off..off + len]
    }

    /// First slot index whose key is `>= key`: a key's run start when the
    /// key is present, the sorted insertion point when it is absent.
    #[must_use]
    pub fn lower_bound(&self, key: &[u8]) -> (r: usize)
        requires
            self.wf(),
        ensures
            r == lower(self@, key@),
            r <= self@.len(),
            forall|i: int| 0 <= i < r ==> lex_lt(#[trigger] self@[i].key, key@),
            forall|i: int| r <= i < self@.len() ==> lex_le(key@, #[trigger] self@[i].key),
    {
        let mut lo: usize = 0;
        let mut hi: usize = self.len;
        while lo < hi
            invariant
                self.wf(),
                lo <= hi <= self@.len(),
                forall|i: int| 0 <= i < lo ==> lex_lt(#[trigger] self@[i].key, key@),
                forall|i: int| hi <= i < self@.len() ==> lex_le(key@, #[trigger] self@[i].key),
            decreases hi - lo,
        {
            let mid: usize = lo + (hi - lo) / 2;
            if bytes_lt(self.slot_key(mid), key) {
                proof {
                    assert forall|i: int| 0 <= i < mid + 1 implies lex_lt(
                        #[trigger] self@[i].key,
                        key@,
                    ) by {
                        assert(lex_le(self@[i].key, self@[mid as int].key));
                        lemma_lex_le_lt(self@[i].key, self@[mid as int].key, key@);
                    }
                }
                lo = mid + 1;
            } else {
                proof {
                    assert forall|i: int| mid <= i < self@.len() implies lex_le(
                        key@,
                        #[trigger] self@[i].key,
                    ) by {
                        assert(lex_le(self@[mid as int].key, self@[i].key));
                        lemma_lex_le_le(key@, self@[mid as int].key, self@[i].key);
                    }
                }
                hi = mid;
            }
        }
        proof {
            lemma_lower_unique(self@, key@, lo as int);
        }
        lo
    }

    /// Checks that a mutation of a `klen`-byte key and a payload of `vlen`
    /// bytes fits.
    fn check_room<E>(&self, klen: usize, payload: Result<usize, Error<E>>) -> (r: Result<
        (),
        Error<E>,
    >)
        requires
            self.wf(),
            payload matches Ok(v) ==> v <= 0xFFFF,
        ensures
            r == room_for(
                self@,
                CAP,
                ARENA,
                klen as nat,
                KEY_MAX,
                match payload {
                    Ok(v) => Ok(v as nat),
                    Err(e) => Err(e),
                },
            ),
    {
        if klen == 0 {
            return Err(Error::EmptyKey);
        }
        if klen > KEY_MAX {
            return Err(Error::KeyTooLarge { len: klen, max: KEY_MAX });
        }
        let vlen: usize = match payload {
            Ok(v) => v,
            Err(e) => {
                return Err(e);
            },
        };
        if self.len >= CAP {
            return Err(Error::TableFull);
        }
        if klen + vlen > ARENA - self.arena_len {
            return Err(Error::ArenaFull);
        }
        Ok(())
    }

    /// Adds one entry whose room was checked.
    fn apply(
        &mut self,
        key: &[u8],
        val: &[u8],
        seq: u64,
        tombstone: bool,
        range_del: bool,
        expire_at: u64,
    )
        requires
            old(self).wf(),
            old(self)@.len() < CAP,
            arena_used(old(self)@) + key@.len() + val@.len() <= ARENA,
            val@.len() <= 0xFFFF,
            Self::rec_ok(
                (Rec { key: key@, val: val@, seq, tombstone, range_del, expire_at }),
            ),
        ensures
            final(self).wf(),
            final(self)@ == with_rec(
                old(self)@,
                (Rec { key: key@, val: val@, seq, tombstone, range_del, expire_at }),
            ),
    {
        let pos: usize = self.lower_bound(key);
        let n: usize = self.len;
        let kl: usize = key.len();
        let vl: usize = val.len();
        let koff: usize = self.arena_len;
        let voff: usize = koff + kl;
        let ghost before = self@;
        let ghost used = self.arena_len as int;
        let ghost r = Rec { key: key@, val: val@, seq, tombstone, range_del, expire_at };
        proof {
            reveal(spliced);
        }
        copy_into(&mut self.arena, koff, key);
        copy_into(&mut self.arena, voff, val);
        proof {
            assert forall|i: int| 0 <= i < used implies self.arena@[i] == old(self).arena@[i] by {}
            assert(self.arena@.subrange(koff as int, koff + kl) =~= key@);
            assert(self.arena@.subrange(voff as int, voff + vl) =~= val@);
        }
        let ghost filled = self.arena@;
        let mut j: usize = n;
        while j > pos
            invariant
                pos <= j <= n,
                n == self.len,
                n < CAP,
                self.arena@ == filled,
                self.max_seq == old(self).max_seq,
                forall|k: int| 0 <= k < j ==> self.slots@[k] == old(self).slots@[k],
                forall|k: int| j < k <= n ==> #[trigger] self.slots@[k] == old(self).slots@[k - 1],
            decreases j - pos,
        {
            let x: Slot = self.slots[j - 1];
            self.slots[j] = x;
            j = j - 1;
        }
        self.slots[pos] = Slot {
            key_off: koff as u32,
            key_len: kl as u16,
            val_off: voff as u32,
            val_len: vl as u16,
            seq,
            tombstone,
            range_del,
            expire_at,
        };
        self.len = n + 1;
        self.arena_len = voff + vl;
        if seq > self.max_seq {
            self.max_seq = seq;
        }
        proof {
            assert forall|i: int| 0 <= i < self.len implies (#[trigger] self.slots@[i]).fits(
                self.arena_len as int,
            ) by {
                if i < pos {
                    assert(old(self).slots@[i].fits(used));
                } else if i > pos {
                    assert(old(self).slots@[i - 1].fits(used));
                }
            }
            assert forall|i: int| 0 <= i < before.len() implies #[trigger] before[i]
                == old(self).slots@[i].rec(self.arena@) by {
                let s = old(self).slots@[i];
                assert(s.fits(used));
                assert(s.rec(self.arena@).key =~= s.rec(old(self).arena@).key);
                assert(s.rec(self.arena@).val =~= s.rec(old(self).arena@).val);
            }
            assert forall|i: int| 0 <= i < n + 1 implies #[trigger] self@[i]
                == before.insert(pos as int, r)[i] by {
                if i < pos {
                    assert(self@[i] == before[i]);
                } else if i > pos {
                    assert(self@[i] == before[i - 1]);
                } else {
                    assert(self@[i].key =~= r.key);
                    assert(self@[i].val =~= r.val);
                }
            }
            assert(self@ =~= with_rec(before, r));
            law_with_rec_keeps_order(before, r);
            lemma_arena_insert(before, pos as int, r);
            lemma_top_insert(before, pos as int, r);
            assert forall|i: int| 0 <= i < self@.len() implies Self::rec_ok(
                #[trigger] self@[i],
            ) by {
                if i < pos {
                    assert(self@[i] == before[i]);
                } else if i > pos {
                    assert(self@[i] == before[i - 1]);
                }
            }
        }
    }

    /// Checks that [`insert`](Self::insert) of the same mutation would
    /// succeed.
    ///
    /// # Errors
    ///
    /// [`Error::EmptyKey`], [`Error::KeyTooLarge`],
    /// [`Error::ValueTooLarge`], [`Error::TableFull`] or
    /// [`Error::ArenaFull`].
    pub fn check_insert<E>(&self, key: &[u8], val: &[u8], tombstone: bool) -> (r: Result<
        (),
        Error<E>,
    >)
        requires
            self.wf(),
        ensures
            r == room_for(
                self@,
                CAP,
                ARENA,
                key@.len(),
                KEY_MAX,
                value_payload::<E>(val@.len(), tombstone, VAL_MAX),
            ),
    {
        let payload: Result<usize, Error<E>> = if tombstone {
            Ok(0)
        } else if val.len() > VAL_MAX {
            Err(Error::ValueTooLarge { len: val.len(), max: VAL_MAX })
        } else {
            Ok(val.len())
        };
        self.check_room(key.len(), payload)
    }

    /// Checks that [`insert_range_del`](Self::insert_range_del) of the same
    /// range would succeed.
    ///
    /// # Errors
    ///
    /// [`Error::EmptyKey`], [`Error::KeyTooLarge`], [`Error::TableFull`] or
    /// [`Error::ArenaFull`].
    pub fn check_insert_range_del<E>(&self, start: &[u8], end: &[u8]) -> (r: Result<(), Error<E>>)
        requires
            self.wf(),
        ensures
            r == room_for(
                self@,
                CAP,
                ARENA,
                start@.len(),
                KEY_MAX,
                end_payload::<E>(end@.len(), KEY_MAX),
            ),
    {
        let payload: Result<usize, Error<E>> = if end.len() > KEY_MAX {
            Err(Error::KeyTooLarge { len: end.len(), max: KEY_MAX })
        } else {
            Ok(end.len())
        };
        self.check_room(start.len(), payload)
    }

    /// Inserts one mutation in front of its key's run.
    ///
    /// # Errors
    ///
    /// As [`check_insert`](Self::check_insert); the table is then unchanged.
    pub fn insert<E>(&mut self, key: &[u8], val: &[u8], seq: u64, tombstone: bool) -> (r: Result<
        (),
        Error<E>,
    >)
        requires
            old(self).wf(),
        ensures
            final(self).wf(),
            r == room_for(
                old(self)@,
                CAP,
                ARENA,
                key@.len(),
                KEY_MAX,
                value_payload::<E>(val@.len(), tombstone, VAL_MAX),
            ),
            final(self)@ == (if r is Ok {
                with_rec(old(self)@, point_rec(key@, val@, seq, tombstone, 0))
            } else {
                old(self)@
            }),
    {
        match self.check_insert::<E>(key, val, tombstone) {
            Ok(()) => {},
            Err(e) => {
                return Err(e);
            },
        }
        if tombstone {
            let none: [u8; 0] = [];
            assert(none@ =~= Seq::<u8>::empty());
            self.apply(key, &none, seq, true, false, 0);
        } else {
            self.apply(key, val, seq, false, false, 0);
        }
        Ok(())
    }

    /// Inserts a put with an absolute expiry tick (0 = no expiry).
    ///
    /// # Errors
    ///
    /// As [`check_insert`](Self::check_insert); the table is then unchanged.
    pub fn insert_ttl<E>(&mut self, key: &[u8], val: &[u8], seq: u64, expire_at: u64) -> (r: Result<
        (),
        Error<E>,
    >)
        requires
            old(self).wf(),
        ensures
            final(self).wf(),
            r == room_for(
                old(self)@,
                CAP,
                ARENA,
                key@.len(),
                KEY_MAX,
                value_payload::<E>(val@.len(), false, VAL_MAX),
            ),
            final(self)@ == (if r is Ok {
                with_rec(old(self)@, point_rec(key@, val@, seq, false, expire_at))
            } else {
                old(self)@
            }),
    {
        match self.check_insert::<E>(key, val, false) {
            Ok(()) => {},
            Err(e) => {
                return Err(e);
            },
        }
        self.apply(key, val, seq, false, false, expire_at);
        Ok(())
    }

    /// Inserts a range tombstone over `[start, end)`.
    ///
    /// # Errors
    ///
    /// As [`check_insert_range_del`](Self::check_insert_range_del); the
    /// table is then unchanged.
    pub fn insert_range_del<E>(&mut self, start: &[u8], end: &[u8], seq: u64) -> (r: Result<
        (),
        Error<E>,
    >)
        requires
            old(self).wf(),
        ensures
            final(self).wf(),
            r == room_for(
                old(self)@,
                CAP,
                ARENA,
                start@.len(),
                KEY_MAX,
                end_payload::<E>(end@.len(), KEY_MAX),
            ),
            final(self)@ == (if r is Ok {
                with_rec(old(self)@, range_rec(start@, end@, seq))
            } else {
                old(self)@
            }),
    {
        match self.check_insert_range_del::<E>(start, end) {
            Ok(()) => {},
            Err(e) => {
                return Err(e);
            },
        }
        self.apply(start, end, seq, false, true, 0);
        Ok(())
    }

    /// The newest version of `key`.
    #[must_use]
    pub fn get(&self, key: &[u8]) -> (r: Option<Lookup<'_>>)
        requires
            self.wf(),
        ensures
            match r {
                Some(l) => exists|i: int|
                    {
                        &&& #[trigger] is_hit(self@, key@, u64::MAX, i)
                        &&& l.val@ == self@[i].val
                        &&& l.seq == self@[i].seq
                        &&& l.tombstone == self@[i].tombstone
                        &&& l.expire_at == self@[i].expire_at
                    },
                None => forall|i: int| !#[trigger] visible_version(self@, key@, u64::MAX, i),
            },
    {
        self.get_at(key, u64::MAX)
    }

    /// The newest version of `key` with `seq <= max_seq`.
    #[must_use]
    pub fn get_at(&self, key: &[u8], max_seq: u64) -> (r: Option<Lookup<'_>>)
        requires
            self.wf(),
        ensures
            match r {
                Some(l) => exists|i: int|
                    {
                        &&& #[trigger] is_hit(self@, key@, max_seq, i)
                        &&& l.val@ == self@[i].val
                        &&& l.seq == self@[i].seq
                        &&& l.tombstone == self@[i].tombstone
                        &&& l.expire_at == self@[i].expire_at
                    },
                None => forall|i: int| !#[trigger] visible_version(self@, key@, max_seq, i),
            },
    {
        let mut idx: usize = self.lower_bound(key);
        proof {
            assert forall|j: int| 0 <= j < idx implies !#[trigger] visible_version(
                self@,
                key@,
                max_seq,
                j,
            ) by {
                lemma_lex_irreflexive(key@);
                assert(lex_lt(self@[j].key, key@));
            }
        }
        while idx < self.len
            invariant
                self.wf(),
                idx <= self@.len(),
                forall|j: int| 0 <= j < idx ==> !#[trigger] visible_version(self@, key@, max_seq, j),
                forall|i: int| idx <= i < self@.len() ==> lex_le(key@, #[trigger] self@[i].key),
            decreases self.len - idx,
        {
            if !bytes_eq(self.slot_key(idx), key) {
                proof {
                    assert forall|j: int| !#[trigger] visible_version(self@, key@, max_seq, j) by {
                        if j > idx && visible_version(self@, key@, max_seq, j) {
                            assert(lex_le(self@[idx as int].key, self@[j].key));
                            lemma_lex_total(key@, self@[idx as int].key);
                        }
                    }
                }
                return None;
            }
            let slot: Slot = self.slots[idx];
            if !slot.range_del && slot.seq <= max_seq {
                assert(is_hit(self@, key@, max_seq, idx as int));
                return Some(
                    Lookup {
                        val: self.slot_val(idx),
                        seq: slot.seq,
                        tombstone: slot.tombstone,
                        expire_at: slot.expire_at,
                    },
                );
            }
            idx = idx + 1;
        }
        None
    }

    /// Highest sequence at or below `max_seq` of a range tombstone covering
    /// `key`, or `None`.
    #[must_use]
    pub fn max_covering_rdel(&self, key: &[u8], max_seq: u64) -> (r: Option<u64>)
        requires
            self.wf(),
        ensures
            is_cover(self@, key@, max_seq, r),
    {
        let mut best: Option<u64> = None;
        let mut i: usize = 0;
        while i < self.len
            invariant
                self.wf(),
                i <= self@.len(),
                match best {
                    Some(q) => {
                        &&& exists|j: int|
                            j < i && #[trigger] covers_at(self@, key@, max_seq, j) && self@[j].seq
                                == q
                        &&& forall|j: int|
                            j < i && #[trigger] covers_at(self@, key@, max_seq, j) ==> self@[j].seq
                                <= q
                    },
                    None => forall|j: int| j < i ==> !#[trigger] covers_at(self@, key@, max_seq, j),
                },
            decreases self.len - i,
        {
            let slot: Slot = self.slots[i];
            if slot.range_del && slot.seq <= max_seq && !bytes_lt(key, self.slot_key(i))
                && bytes_lt(key, self.slot_val(i)) {
                assert(covers_at(self@, key@, max_seq, i as int));
                let better: bool = match best {
                    Some(q) => slot.seq > q,
                    None => true,
                };
                if better {
                    best = Some(slot.seq);
                }
            } else {
                assert(!covers_at(self@, key@, max_seq, i as int));
            }
            i = i + 1;
        }
        best
    }

    /// Walks the entries in key order.
    #[must_use]
    pub fn iter(&self) -> (r: Iter<'_, CAP, ARENA, KEY_MAX, VAL_MAX>)
        requires
            self.wf(),
        ensures
            r.wf(),
            r.rest() == self@,
    {
        let r = Iter { table: self, idx: 0 };
        assert(r.rest() =~= self@);
        r
    }

    /// Entry `idx` in key order, or `None` past the end.
    #[must_use]
    pub fn slot_view(&self, idx: usize) -> (r: Option<Entry<'_, CAP, ARENA, KEY_MAX, VAL_MAX>>)
        requires
            self.wf(),
        ensures
            match r {
                Some(e) => idx < self@.len() && e@ == self@[idx as int],
                None => idx >= self@.len(),
            },
    {
        if idx >= self.len {
            return None;
        }
        let slot: Slot = self.slots[idx];
        Some(
            Entry {
                key: self.slot_key(idx),
                val: self.slot_val(idx),
                seq: slot.seq,
                tombstone: slot.tombstone,
                range_del: slot.range_del,
                expire_at: slot.expire_at,
            },
        )
    }
}

} // verus!

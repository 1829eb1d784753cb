//! Crash-safe root pointer: the manifest.
//!
//! The manifest is stored as whole *copies*, two or more (see
//! [`ManifestLayout`]); each commit bumps `seq` and writes copy
//! `seq % copies`, then flushes the device. A copy is a run of blocks, as
//! many as the worst-case manifest needs ([`Manifest::max_blocks`]), of
//! which a commit writes only those its current contents fill. Every block
//! carries the commit's `seq` and its own CRC, so recovery accepts a copy
//! only when all of its blocks are intact *and* agree on `seq`: a commit
//! torn anywhere across its blocks leaves its copy invalid, and the previous
//! commit's copy wins.
//!
//! The bytes are those of [`manifest_format`](crate::manifest_format).

use vstd::prelude::*;

use crate::body::{lost, next_le, refused, BlockSource, BodySource, SliceSource};
use crate::bytes::{
    bytes_le, bytes_lt, le_bytes, lemma_le_bytes_len, lemma_pow256, lemma_splice_index, lex_le,
    lex_lt, load_le, pow256, spliced, store_le, zero_fill,
};
use crate::crc::crc32;
use crate::device::{lemma_synced_on, same_blocks, same_outside, synced_outside, BlockDevice};
use crate::error::Error;
pub use crate::keys::KeyBound;
pub use crate::manifest_format::{BLOCK_CRC, BLOCK_FRAME, BLOCK_HEADER, MANIFEST_MAGIC};
use crate::manifest_format::{
    all_ones, block_agrees, block_bytes, body_bytes, body_parse, chunk_of, chunks_for,
    copy_blocks, copy_body, fits_shape, fixed_bytes, framed_bytes, fresh_manifest, head_of,
    keys_fit, law_block_roundtrip, law_body_roundtrip, lemma_fixed_len, lemma_levels_len,
    lemma_tabs_len, levels_bytes, probe_of, tab_bytes, tabs_bytes, take_fixed, take_key,
    take_levels, take_tab, take_tabs, total_tables, HeadV, ManV, ProbeV, TabV,
};
use crate::pool::{items_before, lemma_items_none, lemma_items_update, Pool};
use crate::wal::{all_zero, all_zeros, padded};
use crate::window::Window;

verus! {

/// Where the manifest's copies live. Each copy is a run of
/// [`Manifest::max_blocks`] blocks; commits rotate through the copies, so
/// every copy's blocks are erased once per `copies` commits.
#[derive(Debug, Clone, Copy, PartialEq, Eq, Structural)]
pub struct ManifestLayout {
    first: u64,
    second: u64,
    /// Ring copies; 0 for the two-copy pair at `first` and `second`.
    ring: u32,
}

impl ManifestLayout {
    /// Number of copies.
    pub closed spec fn n(&self) -> int {
        if self.ring == 0 {
            2
        } else {
            self.ring as int
        }
    }

    /// First block of copy `k`, for copies of `stride` blocks.
    pub closed spec fn start_of(&self, k: int, stride: int) -> int {
        if self.ring == 0 {
            if k % 2 == 0 {
                self.first as int
            } else {
                self.second as int
            }
        } else {
            self.first + (k % (self.ring as int)) * stride
        }
    }

    /// Every copy lies in the block address space.
    pub open spec fn fits(&self, stride: int) -> bool {
        forall|k: int| 0 <= k < self.n() ==> #[trigger] self.start_of(k, stride) + stride <= u64::MAX
    }

    /// Copies start at block ids.
    pub proof fn lemma_start_nonneg(&self, k: int, stride: int)
        requires
            0 <= k < self.n(),
            0 <= stride,
        ensures
            self.start_of(k, stride) >= 0,
    {
        if self.ring != 0 {
            assert((k % (self.ring as int)) * stride >= 0) by (nonlinear_arith)
                requires
                    k % (self.ring as int) >= 0,
                    stride >= 0,
            ;
        }
    }

    /// There is a copy, and their number fits a `u32`.
    pub proof fn lemma_n(&self)
        ensures
            1 <= self.n() <= u32::MAX,
    {
    }

    /// The layout of two copies at `a` and `b`.
    pub closed spec fn pair_of(a: u64, b: u64) -> Self {
        ManifestLayout { first: a, second: b, ring: 0 }
    }

    /// The layout of a ring of copies from `start`.
    pub closed spec fn ring_of(start: u64, copies: u32) -> Self {
        ManifestLayout {
            first: start,
            second: 0,
            ring: if copies < 2 {
                2
            } else {
                copies
            },
        }
    }

    /// Copy numbers wrap: a pair's two copies come by turns, and those of a
    /// ring, two at least, follow one another and then come round.
    pub proof fn law_copies_wrap(a: u64, b: u64, copies: u32, k: int, stride: int)
        requires
            0 <= k,
        ensures
            ({
                let p = Self::pair_of(a, b);
                let r = Self::ring_of(a, copies);
                let n: int = if copies < 2 {
                    2
                } else {
                    copies as int
                };
                &&& p.start_of(k % p.n(), stride) == (if k % 2 == 0 {
                    a as int
                } else {
                    b as int
                })
                &&& r.n() == n
                &&& r.start_of(k % r.n(), stride) == a + (k % n) * stride
            }),
    {
        let n: int = if copies < 2 {
            2
        } else {
            copies as int
        };
        vstd::arithmetic::div_mod::lemma_mod_twice(k, n);
        vstd::arithmetic::div_mod::lemma_mod_twice(k, 2);
    }

    /// A layout has two copies at least.
    pub proof fn lemma_two_copies(a: u64, b: u64, copies: u32)
        ensures
            Self::pair_of(a, b).n() == 2,
            Self::ring_of(a, copies).n() >= 2,
    {
    }

    /// First block and end of copy `k`, or `None` when it leaves the block
    /// address space.
    pub fn copy_span(&self, k: u32, stride: u64) -> (r: Option<(u64, u64)>)
        requires
            k < self.n(),
        ensures
            match r {
                Some((lo, hi)) => {
                    &&& lo == self.start_of(k as int, stride as int)
                    &&& hi == lo + stride
                },
                None => self.start_of(k as int, stride as int) + stride > u64::MAX,
            },
    {
        let start: u64 = if self.ring == 0 {
            if k % 2 == 0 {
                self.first
            } else {
                self.second
            }
        } else {
            proof {
                vstd::arithmetic::div_mod::lemma_small_mod(k as nat, self.ring as nat);
                assert(k * stride >= 0) by (nonlinear_arith);
            }
            match (k as u64).checked_mul(stride) {
                None => {
                    return None;
                },
                Some(off) => match self.first.checked_add(off) {
                    None => {
                        return None;
                    },
                    Some(s) => s,
                },
            }
        };
        match start.checked_add(stride) {
            None => None,
            Some(end) => Some((start, end)),
        }
    }

    /// Two copies, starting at blocks `a` and `b` (the classic
    /// double-buffered pair; copy `seq % 2` is written).
    #[must_use]
    pub fn pair(a: u64, b: u64) -> (r: Self)
        ensures
            r == Self::pair_of(a, b),
            r.n() == 2,
            forall|stride: int| #[trigger] r.start_of(0, stride) == a,
            forall|stride: int| #[trigger] r.start_of(1, stride) == b,
    {
        ManifestLayout { first: a, second: b, ring: 0 }
    }

    /// `copies` copies back to back from block `start`: copy `k` starts at
    /// `start + k * max_blocks`. More copies spread the manifest's erase
    /// wear. Fewer than two copies are treated as two.
    #[must_use]
    pub fn ring(start: u64, copies: u32) -> (r: Self)
        ensures
            r == Self::ring_of(start, copies),
            r.n() == (if copies < 2 {
                2
            } else {
                copies as int
            }),
            forall|k: int, stride: int|
                0 <= k < r.n() ==> #[trigger] r.start_of(k, stride) == start + k * stride,
    {
        let r = ManifestLayout {
            first: start,
            second: 0,
            ring: if copies < 2 {
                2
            } else {
                copies
            },
        };
        proof {
            assert forall|k: int, stride: int| 0 <= k < r.n() implies #[trigger] r.start_of(
                k,
                stride,
            ) == start + k * stride by {
                vstd::arithmetic::div_mod::lemma_small_mod(k as nat, r.ring as nat);
            }
        }
        r
    }

    /// Number of copies.
    #[must_use]
    pub fn copies(&self) -> (r: u32)
        ensures
            r == self.n(),
    {
        if self.ring == 0 {
            2
        } else {
            self.ring
        }
    }

    /// First block of copy `k`, for copies of `stride` blocks.
    #[must_use]
    pub fn copy_start(&self, k: u32, stride: u64) -> (r: u64)
        requires
            self.start_of(k as int, stride as int) <= u64::MAX,
        ensures
            r == self.start_of(k as int, stride as int),
    {
        if self.ring == 0 {
            if k % 2 == 0 {
                self.first
            } else {
                self.second
            }
        } else {
            proof {
                assert(0 <= (k % self.ring) * stride) by (nonlinear_arith)
                    requires
                        self.ring > 0,
                        stride >= 0,
                        (k % self.ring) >= 0,
                ;
            }
            self.first + (k % self.ring) as u64 * stride
        }
    }
}

/// One `SSTable` placement record.
#[derive(Debug, Clone, Copy, PartialEq, Eq)]
pub struct TableRef<const KEY_MAX: usize> {
    /// Table id, unique per database lifetime.
    pub id: u32,
    /// First block id of the table. On-device layout:
    /// `[data]* [rdel]* [bloom] [index] [footer]`.
    pub first_block: u64,
    /// Total blocks: rdel blocks + data blocks + bloom + index + footer.
    pub block_count: u32,
    /// Live lower bound: the smallest key the table answers for (includes
    /// range-tombstone bounds).
    pub first_key: KeyBound<KEY_MAX>,
    /// Largest key in the table (includes range-tombstone bounds; a
    /// tombstone's exclusive end is stored as-is).
    pub last_key: KeyBound<KEY_MAX>,
    /// Highest sequence number in the table (includes range tombstones).
    pub max_seq: u64,
    /// Lowest sequence number in the table (includes range tombstones).
    pub min_seq: u64,
    /// Key/value entries (including tombstones).
    pub entry_count: u32,
    /// Range-tombstone blocks, stored after the data blocks.
    pub rdel_blocks: u32,
}

/// Data blocks of a table, `None` for a malformed record.
pub open spec fn data_blocks_of(t: TabV) -> Option<u64> {
    if t.block_count >= t.rdel_blocks + 3 {
        Some((t.block_count - t.rdel_blocks - 3) as u64)
    } else {
        None
    }
}

/// A key lies within a table's bounds.
pub open spec fn tab_covers(t: TabV, key: Seq<u8>) -> bool {
    lex_le(t.first_key, key) && lex_le(key, t.last_key)
}

impl<const KEY_MAX: usize> View for TableRef<KEY_MAX> {
    type V = TabV;

    open spec fn view(&self) -> TabV {
        TabV {
            id: self.id,
            first_block: self.first_block,
            block_count: self.block_count,
            first_key: self.first_key@,
            last_key: self.last_key@,
            max_seq: self.max_seq,
            min_seq: self.min_seq,
            entry_count: self.entry_count,
            rdel_blocks: self.rdel_blocks,
        }
    }
}

impl<const KEY_MAX: usize> TableRef<KEY_MAX> {
    /// Both key bounds lie in their capacity.
    pub open spec fn wf(&self) -> bool {
        self.first_key.wf() && self.last_key.wf()
    }

    /// Both key bounds are zero-padded.
    pub open spec fn padded(&self) -> bool {
        self.first_key.padded() && self.last_key.padded()
    }

    /// An empty (zero) reference.
    #[must_use]
    pub fn empty() -> (r: Self)
        ensures
            r.wf(),
            r.padded(),
            r@ == (TabV {
                id: 0,
                first_block: 0,
                block_count: 0,
                first_key: Seq::empty(),
                last_key: Seq::empty(),
                max_seq: 0,
                min_seq: 0,
                entry_count: 0,
                rdel_blocks: 0,
            }),
    {
        TableRef {
            id: 0,
            first_block: 0,
            block_count: 0,
            first_key: KeyBound::empty(),
            last_key: KeyBound::empty(),
            max_seq: 0,
            min_seq: 0,
            entry_count: 0,
            rdel_blocks: 0,
        }
    }

    /// Data blocks: `block_count - rdel_blocks - 3` (bloom, index, footer),
    /// or `None` for a malformed ref.
    #[must_use]
    pub fn data_blocks(&self) -> (r: Option<u64>)
        ensures
            r == data_blocks_of(self@),
    {
        if self.block_count as u64 >= self.rdel_blocks as u64 + 3 {
            Some(self.block_count as u64 - self.rdel_blocks as u64 - 3)
        } else {
            None
        }
    }

    /// First data block: the table starts with its data section.
    #[must_use]
    pub fn data_first(&self) -> (r: u64)
        ensures
            r == self.first_block,
    {
        self.first_block
    }

    /// First range-tombstone block: right after the data section, or `None`
    /// for a malformed ref.
    #[must_use]
    pub fn rdel_first(&self) -> (r: Option<u64>)
        ensures
            r == (match data_blocks_of(self@) {
                Some(d) => if self.first_block + d <= u64::MAX {
                    Some((self.first_block + d) as u64)
                } else {
                    None
                },
                None => None,
            }),
    {
        match self.data_blocks() {
            Some(d) => self.first_block.checked_add(d),
            None => None,
        }
    }

    /// The footer: the table's last block, or `None` for a malformed ref.
    #[must_use]
    pub fn footer_block(&self) -> (r: Option<u64>)
        ensures
            r == (if self.block_count > 0 && self.first_block + self.block_count <= u64::MAX {
                Some((self.first_block + self.block_count - 1) as u64)
            } else {
                None
            }),
    {
        if self.block_count == 0 {
            return None;
        }
        match self.first_block.checked_add(self.block_count as u64) {
            Some(end) => end.checked_sub(1),
            None => None,
        }
    }

    /// One past the last block id of the table.
    #[must_use]
    pub fn end_block(&self) -> (r: u64)
        requires
            self.first_block + self.block_count <= u64::MAX,
        ensures
            r == self.first_block + self.block_count,
    {
        self.first_block + self.block_count as u64
    }

    /// True when `key` lies within the table's key bounds (inclusive).
    #[must_use]
    pub fn covers(&self, key: &[u8]) -> (r: bool)
        requires
            self.wf(),
        ensures
            r == tab_covers(self@, key@),
    {
        bytes_le(self.first_key.as_slice(), key) && bytes_le(key, self.last_key.as_slice())
    }
}

/// The tables of all levels, level by level.
pub open spec fn flat(ls: Seq<Seq<TabV>>) -> Seq<TabV>
    decreases ls.len(),
{
    if ls.len() == 0 {
        Seq::empty()
    } else {
        flat(ls.drop_last()) + ls.last()
    }
}

/// Position of the first table with id `id`, or the length.
pub open spec fn index_of_id(ts: Seq<TabV>, id: u32) -> int
    decreases ts.len(),
{
    if ts.len() == 0 || ts[0].id == id {
        0
    } else {
        1 + index_of_id(ts.skip(1), id)
    }
}

/// How many leading tables have a first key below `k`.
pub open spec fn lead_below(ts: Seq<TabV>, k: Seq<u8>) -> int
    decreases ts.len(),
{
    if ts.len() == 0 || !lex_lt(ts[0].first_key, k) {
        0
    } else {
        1 + lead_below(ts.skip(1), k)
    }
}

/// First keys never descend.
pub open spec fn first_key_sorted(ts: Seq<TabV>) -> bool {
    forall|i: int, j: int|
        0 <= i <= j < ts.len() ==> #[trigger] lex_le(ts[i].first_key, #[trigger] ts[j].first_key)
}

/// Highest sequence over tables, 0 when there is none.
pub open spec fn top_of(ts: Seq<TabV>) -> u64
    decreases ts.len(),
{
    if ts.len() == 0 {
        0
    } else {
        let t = top_of(ts.drop_last());
        if ts.last().max_seq > t {
            ts.last().max_seq
        } else {
            t
        }
    }
}

pub proof fn lemma_index_of_id(ts: Seq<TabV>, id: u32)
    ensures
        0 <= index_of_id(ts, id) <= ts.len(),
        index_of_id(ts, id) < ts.len() ==> ts[index_of_id(ts, id)].id == id,
        forall|i: int| 0 <= i < index_of_id(ts, id) ==> (#[trigger] ts[i]).id != id,
    decreases ts.len(),
{
    if ts.len() > 0 && ts[0].id != id {
        lemma_index_of_id(ts.skip(1), id);
        assert forall|i: int| 0 <= i < index_of_id(ts, id) implies (#[trigger] ts[i]).id != id by {
            if i > 0 {
                assert(ts.skip(1)[i - 1].id != id);
            }
        }
    }
}

proof fn lemma_index_unique(ts: Seq<TabV>, id: u32, p: int)
    requires
        0 <= p <= ts.len(),
        forall|i: int| 0 <= i < p ==> (#[trigger] ts[i]).id != id,
        p < ts.len() ==> ts[p].id == id,
    ensures
        index_of_id(ts, id) == p,
{
    lemma_index_of_id(ts, id);
    let q = index_of_id(ts, id);
    if p < q {
        assert(ts[p].id != id);
    } else if q < p {
        assert(ts[q].id != id);
    }
}

pub proof fn lemma_lead_below(ts: Seq<TabV>, k: Seq<u8>)
    ensures
        0 <= lead_below(ts, k) <= ts.len(),
        lead_below(ts, k) < ts.len() ==> !lex_lt(ts[lead_below(ts, k)].first_key, k),
        forall|i: int| 0 <= i < lead_below(ts, k) ==> lex_lt(#[trigger] ts[i].first_key, k),
    decreases ts.len(),
{
    if ts.len() > 0 && lex_lt(ts[0].first_key, k) {
        lemma_lead_below(ts.skip(1), k);
        assert forall|i: int| 0 <= i < lead_below(ts, k) implies lex_lt(
            #[trigger] ts[i].first_key,
            k,
        ) by {
            if i > 0 {
                assert(lex_lt(ts.skip(1)[i - 1].first_key, k));
            }
        }
    }
}

proof fn lemma_lead_unique(ts: Seq<TabV>, k: Seq<u8>, p: int)
    requires
        0 <= p <= ts.len(),
        forall|i: int| 0 <= i < p ==> lex_lt(#[trigger] ts[i].first_key, k),
        p < ts.len() ==> !lex_lt(ts[p].first_key, k),
    ensures
        lead_below(ts, k) == p,
{
    lemma_lead_below(ts, k);
    let q = lead_below(ts, k);
    if p < q {
        assert(lex_lt(ts[p].first_key, k));
    } else if q < p {
        assert(lex_lt(ts[q].first_key, k));
    }
}

/// A deeper level stays sorted by first key when a table is added.
pub proof fn law_insert_keeps_sorted(ts: Seq<TabV>, t: TabV)
    requires
        first_key_sorted(ts),
    ensures
        first_key_sorted(ts.insert(lead_below(ts, t.first_key), t)),
{
    lemma_lead_below(ts, t.first_key);
    let p = lead_below(ts, t.first_key);
    let w = ts.insert(p, t);
    assert forall|i: int, j: int| 0 <= i <= j < w.len() implies #[trigger] lex_le(
        w[i].first_key,
        #[trigger] w[j].first_key,
    ) by {
        let a = if i < p { i } else { i - 1 };
        let b = if j < p { j } else { j - 1 };
        if i == p && j == p {
            crate::bytes::lemma_lex_irreflexive(t.first_key);
        } else if i == p {
            assert(w[j] == ts[b]);
            assert(lex_le(ts[p].first_key, ts[b].first_key));
            crate::bytes::lemma_lex_le_le(t.first_key, ts[p].first_key, ts[b].first_key);
        } else if j == p {
            assert(w[i] == ts[a]);
            crate::bytes::lemma_lex_asymmetric(ts[a].first_key, t.first_key);
        } else {
            assert(w[i] == ts[a]);
            assert(w[j] == ts[b]);
            assert(lex_le(ts[a].first_key, ts[b].first_key));
        }
    }
}

/// Removing a table keeps a level sorted.
pub proof fn law_remove_keeps_sorted(ts: Seq<TabV>, p: int)
    requires
        first_key_sorted(ts),
        0 <= p < ts.len(),
    ensures
        first_key_sorted(ts.remove(p)),
{
    let w = ts.remove(p);
    assert forall|i: int, j: int| 0 <= i <= j < w.len() implies #[trigger] lex_le(
        w[i].first_key,
        #[trigger] w[j].first_key,
    ) by {
        let a = if i < p { i } else { i + 1 };
        let b = if j < p { j } else { j + 1 };
        assert(w[i] == ts[a]);
        assert(w[j] == ts[b]);
        assert(lex_le(ts[a].first_key, ts[b].first_key));
    }
}

pub proof fn lemma_total_update(ls: Seq<Seq<TabV>>, l: int, ts: Seq<TabV>)
    requires
        0 <= l < ls.len(),
    ensures
        total_tables(ls.update(l, ts)) == total_tables(ls) - ls[l].len() + ts.len(),
        ls[l].len() <= total_tables(ls),
    decreases ls.len(),
{
    let w = ls.update(l, ts);
    if l == 0 {
        assert(w.skip(1) =~= ls.skip(1));
    } else {
        assert(w.skip(1) =~= ls.skip(1).update(l - 1, ts));
        lemma_total_update(ls.skip(1), l - 1, ts);
    }
}

pub proof fn lemma_total_take(ls: Seq<Seq<TabV>>, n: int)
    requires
        0 <= n <= ls.len(),
    ensures
        total_tables(ls) == total_tables(ls.take(n)) + total_tables(ls.skip(n)),
    decreases ls.len(),
{
    if n == 0 {
        assert(ls.skip(0) =~= ls);
    } else {
        assert(ls.take(n).skip(1) =~= ls.skip(1).take(n - 1));
        assert(ls.skip(1).skip(n - 1) =~= ls.skip(n));
        lemma_total_take(ls.skip(1), n - 1);
    }
}

pub proof fn lemma_total_snoc(ls: Seq<Seq<TabV>>, ts: Seq<TabV>)
    ensures
        total_tables(ls.push(ts)) == total_tables(ls) + ts.len(),
{
    let w = ls.push(ts);
    lemma_total_take(w, ls.len() as int);
    assert(w.take(ls.len() as int) =~= ls);
    assert(w.skip(ls.len() as int) =~= seq![ts]);
    assert(seq![ts].skip(1) =~= Seq::<Seq<TabV>>::empty());
    assert(total_tables(seq![ts]) == ts.len()) by {
        reveal_with_fuel(total_tables, 2);
    }
}

/// The largest body any manifest of a shape encodes to.
pub open spec fn max_body(nlevels: int, tables: int, key_max: int) -> int {
    32 + 4 * nlevels + (nlevels * tables) * (44 + 2 * key_max)
}

/// Shapes whose sizes the counters of the format and of the machine hold.
pub open spec fn manifest_shape(nlevels: usize, tables: usize, key_max: usize) -> bool {
    &&& 1 <= nlevels <= u32::MAX
    &&& nlevels * tables <= u32::MAX
    &&& nlevels * tables <= usize::MAX
    &&& key_max <= 0xFFFF
    &&& max_body(nlevels as int, tables as int, key_max as int) <= usize::MAX
}

/// The manifest: sequence, WAL head, table-id counter, the persisted
/// sequence floors, and every level's tables.
///
/// Levels share one pool of `LEVELS * TABLES` table refs: level 0 holds at
/// most `TABLES` (flush output, oldest first), and deeper levels take any
/// share of the rest, kept sorted by first key (disjoint runs). A full pool,
/// not a full level, is what limits the tree.
pub struct Manifest<const LEVELS: usize, const TABLES: usize, const KEY_MAX: usize> {
    seq: u64,
    wal_head: u64,
    next_table_id: u32,
    /// Highest sequence number that has left the WAL: every record with
    /// `seq <= flushed_seq` is in a table or behind `wal_head`.
    flushed_seq: u64,
    /// Highest sequence number ever issued as of the last commit.
    seq_high: u64,
    /// The live refs of each level.
    levels: Pool<TableRef<KEY_MAX>, LEVELS, TABLES>,
}

impl<const LEVELS: usize, const TABLES: usize, const KEY_MAX: usize> View for Manifest<
    LEVELS,
    TABLES,
    KEY_MAX,
> {
    type V = ManV;

    closed spec fn view(&self) -> ManV {
        ManV {
            seq: self.seq,
            wal_head: self.wal_head,
            next_table_id: self.next_table_id,
            flushed_seq: self.flushed_seq,
            seq_high: self.seq_high,
            levels: Seq::new(self.levels@.len(), |l: int| tab_views(self.levels@[l])),
        }
    }
}

/// The records of table refs.
pub open spec fn tab_views<const KEY_MAX: usize>(ts: Seq<TableRef<KEY_MAX>>) -> Seq<TabV> {
    Seq::new(ts.len(), |i: int| ts[i]@)
}

/// Every ref's key bounds lie in their capacity.
pub open spec fn refs_wf<const KEY_MAX: usize>(ts: Seq<TableRef<KEY_MAX>>) -> bool {
    forall|i: int| 0 <= i < ts.len() ==> (#[trigger] ts[i]).wf()
}

/// Every ref's key bounds are zero-padded.
pub open spec fn refs_padded<const KEY_MAX: usize>(ts: Seq<TableRef<KEY_MAX>>) -> bool {
    forall|i: int| 0 <= i < ts.len() ==> (#[trigger] ts[i]).padded()
}

/// Refs with zero-padded bounds that say the same are the same refs: those
/// that a copy was made from and those it decodes to compare equal.
pub proof fn law_padded_refs_equal<const KEY_MAX: usize>(
    a: Seq<TableRef<KEY_MAX>>,
    b: Seq<TableRef<KEY_MAX>>,
)
    requires
        refs_wf(a),
        refs_wf(b),
        refs_padded(a),
        refs_padded(b),
        tab_views(a) == tab_views(b),
    ensures
        a == b,
{
    assert(a.len() == tab_views(a).len() && b.len() == tab_views(b).len());
    assert forall|i: int| 0 <= i < a.len() implies a[i] == b[i] by {
        assert(a[i].wf() && b[i].wf() && a[i].padded() && b[i].padded());
        assert(tab_views(a)[i] == a[i]@ && tab_views(b)[i] == b[i]@);
        a[i].first_key.law_padded_equal(b[i].first_key);
        a[i].last_key.law_padded_equal(b[i].last_key);
    }
    assert(a =~= b);
}

impl<const LEVELS: usize, const TABLES: usize, const KEY_MAX: usize> Default for Manifest<
    LEVELS,
    TABLES,
    KEY_MAX,
> {
    /// A fresh (empty) manifest; identical to [`Manifest::new`].
    fn default() -> (r: Self)
        ensures
            manifest_shape(LEVELS, TABLES, KEY_MAX) ==> r.wf(),
            r@ == fresh_manifest(LEVELS as nat),
    {
        Manifest::new()
    }
}

impl<const LEVELS: usize, const TABLES: usize, const KEY_MAX: usize> Manifest<
    LEVELS,
    TABLES,
    KEY_MAX,
> {
    /// The levels hold well-formed refs within the shape's limits.
    pub closed spec fn wf(&self) -> bool {
        &&& manifest_shape(LEVELS, TABLES, KEY_MAX)
        &&& self.levels.wf()
        &&& self.levels@.len() == LEVELS
        &&& forall|l: int| 0 <= l < LEVELS ==> refs_wf(#[trigger] self.levels@[l])
        &&& fits_shape(self@, LEVELS as nat, TABLES as nat, KEY_MAX as nat)
    }

    /// Every live ref's key bounds are zero-padded.
    pub closed spec fn padded(&self) -> bool {
        forall|l: int| 0 <= l < LEVELS ==> refs_padded(#[trigger] self.levels@[l])
    }

    /// What every well-formed manifest satisfies.
    pub proof fn lemma_wf(&self)
        requires
            self.wf(),
        ensures
            manifest_shape(LEVELS, TABLES, KEY_MAX),
            self@.levels.len() == LEVELS,
            fits_shape(self@, LEVELS as nat, TABLES as nat, KEY_MAX as nat),
    {
    }

    /// A fresh (empty) manifest. `wal_head` is set by the caller on first
    /// open.
    #[must_use]
    pub fn new() -> (r: Self)
        ensures
            manifest_shape(LEVELS, TABLES, KEY_MAX) ==> r.wf(),
            r.padded(),
            r@ == fresh_manifest(LEVELS as nat),
    {
        let r = Manifest {
            seq: 0,
            wal_head: 0,
            next_table_id: 0,
            flushed_seq: 0,
            seq_high: 0,
            levels: Pool::new(TableRef::empty()),
        };
        proof {
            assert forall|l: int| 0 <= l < LEVELS implies #[trigger] r.levels@[l].len() == 0 by {}
            assert(r@.levels =~~= fresh_manifest(LEVELS as nat).levels);
            lemma_total_empty(r@.levels);
        }
        r
    }

    /// A second manifest with the same contents.
    #[must_use]
    pub fn duplicate(&self) -> (r: Self)
        requires
            self.wf(),
        ensures
            r.wf(),
            r.padded() == self.padded(),
            r@ == self@,
    {
        let r = Manifest {
            seq: self.seq,
            wal_head: self.wal_head,
            next_table_id: self.next_table_id,
            flushed_seq: self.flushed_seq,
            seq_high: self.seq_high,
            levels: self.levels,
        };
        assert(r@.levels =~~= self@.levels);
        assert(r@ == self@);
        r
    }

    /// Live refs across all levels.
    fn live(&self) -> (r: usize)
        requires
            self.wf(),
        ensures
            r == total_tables(self@.levels),
            r <= LEVELS * TABLES,
    {
        proof {
            self.levels.lemma_wf();
            lemma_items(self.levels@, self@.levels, LEVELS as int);
            assert(self@.levels.take(LEVELS as int) =~= self@.levels);
        }
        self.levels.used()
    }

    /// The refs of the first levels are theirs, joined.
    proof fn lemma_front(&self, n: int)
        requires
            self.wf(),
            0 <= n <= LEVELS,
        ensures
            tab_views(self.levels.front(n)) == flat(self@.levels.take(n)),
            refs_wf(self.levels.front(n)),
        decreases n,
    {
        let ls = self@.levels;
        if n == 0 {
            self.levels.lemma_front(0);
            assert(ls.take(0) =~= Seq::<Seq<TabV>>::empty());
            assert(tab_views(self.levels.front(0)) =~= flat(ls.take(0)));
        } else {
            self.lemma_front(n - 1);
            self.levels.lemma_front(n - 1);
            let front = self.levels.front(n - 1);
            let row = self.levels@[n - 1];
            assert(ls.take(n).drop_last() =~= ls.take(n - 1));
            assert(ls.take(n).last() == tab_views(row));
            assert(tab_views(front + row) =~= tab_views(front) + tab_views(row));
            assert(refs_wf(row));
            assert forall|i: int| 0 <= i < (front + row).len() implies (#[trigger] (front
                + row)[i]).wf() by {
                if i < front.len() {
                    assert(front[i].wf());
                } else {
                    assert(row[i - front.len()].wf());
                }
            }
        }
    }

    /// Every live table ref, level by level.
    #[must_use]
    pub fn tables(&self) -> (r: &[TableRef<KEY_MAX>])
        requires
            self.wf(),
        ensures
            tab_views(r@) == flat(self@.levels),
            refs_wf(r@),
    {
        proof {
            self.lemma_front(LEVELS as int);
            assert(self@.levels.take(LEVELS as int) =~= self@.levels);
        }
        self.levels.all()
    }

    /// Pool entries still free.
    #[must_use]
    pub fn free_refs(&self) -> (r: usize)
        requires
            self.wf(),
        ensures
            r == LEVELS * TABLES - total_tables(self@.levels),
    {
        let n: usize = self.live();
        LEVELS * TABLES - n
    }

    /// Manifest sequence number (bumped per commit).
    #[must_use]
    pub fn seq(&self) -> (r: u64)
        ensures
            r == self@.seq,
    {
        self.seq
    }

    /// First WAL block still needed for recovery.
    #[must_use]
    pub fn wal_head(&self) -> (r: u64)
        ensures
            r == self@.wal_head,
    {
        self.wal_head
    }

    /// Sets the WAL head (advanced past flushed WAL blocks on flush).
    pub fn set_wal_head(&mut self, head: u64)
        requires
            old(self).wf(),
        ensures
            final(self).wf(),
            final(self).padded() == old(self).padded(),
            final(self)@ == (ManV { wal_head: head, ..old(self)@ }),
    {
        self.wal_head = head;
        assert(self@.levels =~= old(self)@.levels);
    }

    /// Highest sequence number that has left the WAL: the WAL replay floor.
    #[must_use]
    pub fn flushed_seq(&self) -> (r: u64)
        ensures
            r == self@.flushed_seq,
    {
        self.flushed_seq
    }

    /// Highest sequence number issued as of the last commit: the floor the
    /// sequence counter resumes from.
    #[must_use]
    pub fn seq_high(&self) -> (r: u64)
        ensures
            r == self@.seq_high,
    {
        self.seq_high
    }

    /// Records a flush: every mutation with `seq <= seq` has left the WAL.
    /// Monotone: a lower value never lowers either floor.
    pub fn note_flushed(&mut self, seq: u64)
        requires
            old(self).wf(),
        ensures
            final(self).wf(),
            final(self).padded() == old(self).padded(),
            final(self)@ == (ManV {
                flushed_seq: if seq > old(self)@.flushed_seq {
                    seq
                } else {
                    old(self)@.flushed_seq
                },
                seq_high: if seq > old(self)@.seq_high {
                    seq
                } else {
                    old(self)@.seq_high
                },
                ..old(self)@
            }),
    {
        if seq > self.flushed_seq {
            self.flushed_seq = seq;
        }
        assert(self@.levels =~= old(self)@.levels);
        self.raise_seq_high(seq);
    }

    /// Raises the persisted sequence high-water mark. Monotone.
    pub fn raise_seq_high(&mut self, seq: u64)
        requires
            old(self).wf(),
        ensures
            final(self).wf(),
            final(self).padded() == old(self).padded(),
            final(self)@ == (ManV {
                seq_high: if seq > old(self)@.seq_high {
                    seq
                } else {
                    old(self)@.seq_high
                },
                ..old(self)@
            }),
    {
        if seq > self.seq_high {
            self.seq_high = seq;
        }
        assert(self@.levels =~= old(self)@.levels);
    }

    /// Next table id to assign.
    #[must_use]
    pub fn next_table_id(&self) -> (r: u32)
        ensures
            r == self@.next_table_id,
    {
        self.next_table_id
    }

    /// Advances the table-id counter.
    ///
    /// # Errors
    ///
    /// [`Error::NoSpace`] on counter overflow.
    pub fn bump_table_id<E>(&mut self) -> (r: Result<(), Error<E>>)
        requires
            old(self).wf(),
        ensures
            final(self).wf(),
            final(self).padded() == old(self).padded(),
            if old(self)@.next_table_id < u32::MAX {
                &&& r == Ok::<(), Error<E>>(())
                &&& final(self)@ == (ManV {
                    next_table_id: (old(self)@.next_table_id + 1) as u32,
                    ..old(self)@
                })
            } else {
                &&& r == Err::<(), Error<E>>(Error::NoSpace)
                &&& final(self)@ == old(self)@
            },
    {
        if self.next_table_id == u32::MAX {
            return Err(Error::NoSpace);
        }
        self.next_table_id = self.next_table_id + 1;
        assert(self@.levels =~= old(self)@.levels);
        Ok(())
    }

    /// Allocates the next table id, returning it.
    ///
    /// # Errors
    ///
    /// [`Error::NoSpace`] on counter overflow.
    pub fn alloc_table_id<E>(&mut self) -> (r: Result<u32, Error<E>>)
        requires
            old(self).wf(),
        ensures
            final(self).wf(),
            final(self).padded() == old(self).padded(),
            if old(self)@.next_table_id < u32::MAX {
                &&& r == Ok::<u32, Error<E>>(old(self)@.next_table_id)
                &&& final(self)@ == (ManV {
                    next_table_id: (old(self)@.next_table_id + 1) as u32,
                    ..old(self)@
                })
            } else {
                &&& r == Err::<u32, Error<E>>(Error::NoSpace)
                &&& final(self)@ == old(self)@
            },
    {
        let id: u32 = self.next_table_id;
        match self.bump_table_id::<E>() {
            Ok(()) => Ok(id),
            Err(e) => Err(e),
        }
    }

    /// Raises the next-table-id floor to at least `floor`. Idempotent and
    /// monotone: never lowers the counter.
    pub fn advance_next_table_id(&mut self, floor: u32)
        requires
            old(self).wf(),
        ensures
            final(self).wf(),
            final(self).padded() == old(self).padded(),
            final(self)@ == (ManV {
                next_table_id: if floor > old(self)@.next_table_id {
                    floor
                } else {
                    old(self)@.next_table_id
                },
                ..old(self)@
            }),
    {
        if floor > self.next_table_id {
            self.next_table_id = floor;
        }
        assert(self@.levels =~= old(self)@.levels);
    }

    /// Finds a live table by id, searching every level.
    #[must_use]
    pub fn find_table(&self, id: u32) -> (r: Option<&TableRef<KEY_MAX>>)
        requires
            self.wf(),
        ensures
            match r {
                Some(t) => {
                    &&& t.wf()
                    &&& self.padded() ==> t.padded()
                    &&& t.id == id
                    &&& exists|l: int, i: int|
                        0 <= l < self@.levels.len() && 0 <= i < self@.levels[l].len()
                            && #[trigger] self@.levels[l][i] == t@ && (forall|j: int|
                            0 <= j < i ==> (#[trigger] self@.levels[l][j]).id != id) && (forall|
                            k: int,
                            j: int,
                        |
                            0 <= k < l && 0 <= j < self@.levels[k].len() ==> (
                            #[trigger] self@.levels[k][j]).id != id)
                },
                None => forall|l: int, i: int|
                    0 <= l < self@.levels.len() && 0 <= i < self@.levels[l].len() ==> (
                    #[trigger] self@.levels[l][i]).id != id,
            },
    {
        let mut l: usize = 0;
        while l < LEVELS
            invariant
                self.wf(),
                self.levels@.len() == LEVELS,
                l <= LEVELS,
                forall|k: int, j: int|
                    0 <= k < l && 0 <= j < self@.levels[k].len() ==> (
                    #[trigger] self@.levels[k][j]).id != id,
            decreases LEVELS - l,
        {
            let mut i: usize = 0;
            while i < self.levels.count(l)
                invariant
                    self.wf(),
                    self.levels@.len() == LEVELS,
                    l < LEVELS,
                    i <= self.levels@[l as int].len(),
                    forall|k: int, j: int|
                        0 <= k < l && 0 <= j < self@.levels[k].len() ==> (
                        #[trigger] self@.levels[k][j]).id != id,
                    forall|j: int| 0 <= j < i ==> (#[trigger] self@.levels[l as int][j]).id != id,
                decreases self.levels@[l as int].len() - i,
            {
                assert(self@.levels[l as int][i as int] == self.levels@[l as int][i as int]@);
                if self.levels.row(l)[i].id == id {
                    assert(refs_wf(self.levels@[l as int]));
                    assert(self.padded() ==> refs_padded(self.levels@[l as int]));
                    return Some(&self.levels.row(l)[i]);
                }
                i = i + 1;
            }
            l = l + 1;
        }
        None
    }

    /// True when level 0 already holds `TABLES` tables: flush must wait for
    /// compaction to drain it.
    #[must_use]
    pub fn l0_is_full(&self) -> (r: bool)
        requires
            self.wf(),
        ensures
            r == (self@.levels[0].len() >= TABLES),
    {
        self.levels.count(0) >= TABLES
    }

    /// Puts `tref` at `pos` of `level`.
    fn insert_at<E>(&mut self, level: usize, pos: usize, tref: TableRef<KEY_MAX>) -> (r: Result<
        (),
        Error<E>,
    >)
        requires
            old(self).wf(),
            tref.wf(),
            level < LEVELS,
            pos <= old(self)@.levels[level as int].len(),
            level == 0 ==> old(self)@.levels[0].len() < TABLES,
        ensures
            final(self).wf(),
            old(self).padded() && tref.padded() ==> final(self).padded(),
            if total_tables(old(self)@.levels) < LEVELS * TABLES {
                &&& r == Ok::<(), Error<E>>(())
                &&& final(self)@ == (ManV {
                    levels: old(self)@.levels.update(
                        level as int,
                        old(self)@.levels[level as int].insert(pos as int, tref@),
                    ),
                    ..old(self)@
                })
            } else {
                &&& r == Err::<(), Error<E>>(Error::NoSpace)
                &&& final(self)@ == old(self)@
            },
    {
        let used: usize = self.live();
        if used >= LEVELS * TABLES {
            return Err(Error::NoSpace);
        }
        let ghost ls = self@.levels;
        let ghost old_refs = self.levels@[level as int];
        proof {
            assert(refs_wf(old_refs));
            lemma_items(self.levels@, ls, LEVELS as int);
            assert(ls.take(LEVELS as int) =~= ls);
        }
        self.levels.insert(level, pos, tref);
        proof {
            let new_refs = self.levels@[level as int];
            assert(new_refs =~= old_refs.insert(pos as int, tref));
            let nl = ls[level as int].insert(pos as int, tref@);
            assert(tab_views(new_refs) =~= nl);
            assert(self@.levels =~= ls.update(level as int, nl));
            lemma_total_update(ls, level as int, nl);
            assert(refs_wf(new_refs)) by {
                assert forall|i: int| 0 <= i < new_refs.len() implies (
                #[trigger] new_refs[i]).wf() by {
                    if i < pos {
                        assert(old_refs[i].wf());
                    } else if i > pos {
                        assert(old_refs[i - 1].wf());
                    }
                }
            }
            assert(keys_fit(self@.levels, KEY_MAX as nat)) by {
                assert forall|l: int, i: int|
                    0 <= l < self@.levels.len() && 0 <= i < self@.levels[l].len() implies (
                #[trigger] self@.levels[l][i]).first_key.len() <= KEY_MAX
                    && self@.levels[l][i].last_key.len() <= KEY_MAX by {
                    if l == level {
                        assert(new_refs[i].wf());
                    } else {
                        assert(ls[l][i].first_key.len() <= KEY_MAX);
                    }
                }
            }
            assert forall|l: int| 0 <= l < LEVELS implies refs_wf(#[trigger] self.levels@[l]) by {
                if l != level {
                    assert(self.levels@[l] == old(self).levels@[l]);
                }
            }
            if old(self).padded() && tref.padded() {
                assert(refs_padded(old_refs));
                assert forall|i: int| 0 <= i < new_refs.len() implies (
                #[trigger] new_refs[i]).padded() by {
                    if i < pos {
                        assert(old_refs[i].padded());
                    } else if i > pos {
                        assert(old_refs[i - 1].padded());
                    }
                }
                assert forall|l: int| 0 <= l < LEVELS implies refs_padded(
                    #[trigger] self.levels@[l],
                ) by {
                    if l != level {
                        assert(self.levels@[l] == old(self).levels@[l]);
                    }
                }
            }
        }
        Ok(())
    }

    /// Appends a table ref to level 0 (flush output; oldest first).
    ///
    /// # Errors
    ///
    /// [`Error::NoSpace`] when level 0 already holds `TABLES` tables or the
    /// pool is full.
    pub fn add_l0_table<E>(&mut self, tref: TableRef<KEY_MAX>) -> (r: Result<(), Error<E>>)
        requires
            old(self).wf(),
            tref.wf(),
        ensures
            final(self).wf(),
            old(self).padded() && tref.padded() ==> final(self).padded(),
            if old(self)@.levels[0].len() < TABLES && total_tables(old(self)@.levels) < LEVELS
                * TABLES {
                &&& r == Ok::<(), Error<E>>(())
                &&& final(self)@ == (ManV {
                    levels: old(self)@.levels.update(0, old(self)@.levels[0].push(tref@)),
                    ..old(self)@
                })
            } else {
                &&& r == Err::<(), Error<E>>(Error::NoSpace)
                &&& final(self)@ == old(self)@
            },
    {
        let n: usize = self.levels.count(0);
        if n >= TABLES {
            return Err(Error::NoSpace);
        }
        assert(self@.levels[0].insert(n as int, tref@) =~= self@.levels[0].push(tref@));
        self.insert_at(0, n, tref)
    }

    /// Live table refs of level 0, oldest first.
    #[must_use]
    pub fn l0(&self) -> (r: &[TableRef<KEY_MAX>])
        requires
            self.wf(),
        ensures
            tab_views(r@) == self@.levels[0],
            refs_wf(r@),
            self.padded() ==> refs_padded(r@),
    {
        assert(tab_views(self.levels@[0]) =~= self@.levels[0]);
        self.levels.row(0)
    }

    /// Live table refs of level `idx`, or `None` when `idx` is out of range.
    /// Level 0 holds overlapping flush output, oldest first; deeper levels
    /// hold disjoint runs sorted by first key.
    #[must_use]
    pub fn level(&self, idx: usize) -> (r: Option<&[TableRef<KEY_MAX>]>)
        requires
            self.wf(),
        ensures
            match r {
                Some(ts) => {
                    &&& idx < LEVELS
                    &&& tab_views(ts@) == self@.levels[idx as int]
                    &&& refs_wf(ts@)
                    &&& self.padded() ==> refs_padded(ts@)
                },
                None => idx >= LEVELS,
            },
    {
        if idx >= LEVELS {
            return None;
        }
        assert(tab_views(self.levels@[idx as int]) =~= self@.levels[idx as int]);
        Some(self.levels.row(idx))
    }

    /// Adds a table ref to `level`: appended to level 0, inserted in
    /// first-key order into deeper levels. The caller keeps deeper levels'
    /// key ranges disjoint.
    ///
    /// # Errors
    ///
    /// [`Error::NoSpace`] when `level` is out of range, level 0 is full, or
    /// the pool is full.
    pub fn add_table_to_level<E>(&mut self, level: usize, tref: TableRef<KEY_MAX>) -> (r: Result<
        (),
        Error<E>,
    >)
        requires
            old(self).wf(),
            tref.wf(),
        ensures
            final(self).wf(),
            old(self).padded() && tref.padded() ==> final(self).padded(),
            if level < LEVELS && total_tables(old(self)@.levels) < LEVELS * TABLES && (level == 0
                ==> old(self)@.levels[0].len() < TABLES) {
                let ts = old(self)@.levels[level as int];
                &&& r == Ok::<(), Error<E>>(())
                &&& final(self)@ == (ManV {
                    levels: old(self)@.levels.update(
                        level as int,
                        if level == 0 {
                            ts.push(tref@)
                        } else {
                            ts.insert(lead_below(ts, tref@.first_key), tref@)
                        },
                    ),
                    ..old(self)@
                })
            } else {
                &&& r == Err::<(), Error<E>>(Error::NoSpace)
                &&& final(self)@ == old(self)@
            },
    {
        if level >= LEVELS {
            return Err(Error::NoSpace);
        }
        if level == 0 {
            return self.add_l0_table(tref);
        }
        let n: usize = self.levels.count(level);
        let ghost ts = self@.levels[level as int];
        assert(ts.len() == n);
        let mut p: usize = 0;
        while p < n && bytes_lt(
            self.levels.row(level)[p].first_key.as_slice(),
            tref.first_key.as_slice(),
        )
            invariant
                self.wf(),
                tref.wf(),
                level < LEVELS,
                self.levels@.len() == LEVELS,
                n == self.levels@[level as int].len(),
                ts == self@.levels[level as int],
                ts.len() == n,
                p <= n,
                refs_wf(self.levels@[level as int]),
                forall|i: int| 0 <= i < n ==> #[trigger] ts[i] == self.levels@[level as int][i]@,
                forall|i: int| 0 <= i < p ==> lex_lt(#[trigger] ts[i].first_key, tref@.first_key),
            decreases n - p,
        {
            assert(ts[p as int] == self.levels@[level as int][p as int]@);
            p = p + 1;
        }
        proof {
            if p < n {
                assert(ts[p as int] == self.levels@[level as int][p as int]@);
            }
            lemma_lead_unique(ts, tref@.first_key, p as int);
        }
        self.insert_at(level, p, tref)
    }

    /// Position of the table with `id` in `level`, or its length.
    fn position(&self, level: usize, id: u32) -> (r: usize)
        requires
            self.wf(),
            level < LEVELS,
        ensures
            r == index_of_id(self@.levels[level as int], id),
            r <= self@.levels[level as int].len(),
            r < self@.levels[level as int].len() ==> self@.levels[level as int][r as int].id == id,
    {
        let n: usize = self.levels.count(level);
        let ghost ts = self@.levels[level as int];
        let mut p: usize = 0;
        while p < n && self.levels.row(level)[p].id != id
            invariant
                self.wf(),
                level < LEVELS,
                self.levels@.len() == LEVELS,
                n == self.levels@[level as int].len(),
                ts == self@.levels[level as int],
                ts.len() == n,
                p <= n,
                forall|i: int| 0 <= i < n ==> #[trigger] ts[i] == self.levels@[level as int][i]@,
                forall|i: int| 0 <= i < p ==> (#[trigger] ts[i]).id != id,
            decreases n - p,
        {
            assert(ts[p as int] == self.levels@[level as int][p as int]@);
            p = p + 1;
        }
        proof {
            if p < n {
                assert(ts[p as int] == self.levels@[level as int][p as int]@);
            }
            lemma_index_unique(ts, id, p as int);
        }
        p
    }

    /// Removes the table with `id` from `level`. Returns `true` when a table
    /// was removed.
    ///
    /// Removing a table that is not there is not an error.
    ///
    /// # Errors
    ///
    /// [`Error::NoSpace`] when `level` is out of range.
    pub fn remove_table_from_level<E>(&mut self, level: usize, id: u32) -> (r: Result<
        bool,
        Error<E>,
    >)
        requires
            old(self).wf(),
        ensures
            final(self).wf(),
            old(self).padded() ==> final(self).padded(),
            if level >= LEVELS {
                &&& r == Err::<bool, Error<E>>(Error::NoSpace)
                &&& final(self)@ == old(self)@
            } else {
                let ts = old(self)@.levels[level as int];
                let p = index_of_id(ts, id);
                if p < ts.len() {
                    &&& r == Ok::<bool, Error<E>>(true)
                    &&& final(self)@ == (ManV {
                        levels: old(self)@.levels.update(level as int, ts.remove(p)),
                        ..old(self)@
                    })
                } else {
                    &&& r == Ok::<bool, Error<E>>(false)
                    &&& final(self)@ == old(self)@
                }
            },
    {
        if level >= LEVELS {
            return Err(Error::NoSpace);
        }
        let p: usize = self.position(level, id);
        if p >= self.levels.count(level) {
            return Ok(false);
        }
        let ghost ls = self@.levels;
        let ghost old_refs = self.levels@[level as int];
        self.levels.remove(level, p);
        proof {
            let new_refs = self.levels@[level as int];
            let nl = ls[level as int].remove(p as int);
            assert(new_refs =~= old_refs.remove(p as int));
            assert(tab_views(new_refs) =~= nl);
            assert(self@.levels =~= ls.update(level as int, nl));
            lemma_total_update(ls, level as int, nl);
            assert(refs_wf(old_refs));
            assert(refs_wf(new_refs)) by {
                assert forall|i: int| 0 <= i < new_refs.len() implies (
                #[trigger] new_refs[i]).wf() by {
                    assert(old_refs[if i < p { i } else { i + 1 }].wf());
                }
            }
            assert(keys_fit(self@.levels, KEY_MAX as nat)) by {
                assert forall|l: int, i: int|
                    0 <= l < self@.levels.len() && 0 <= i < self@.levels[l].len() implies (
                #[trigger] self@.levels[l][i]).first_key.len() <= KEY_MAX
                    && self@.levels[l][i].last_key.len() <= KEY_MAX by {
                    if l == level {
                        assert(new_refs[i].wf());
                    } else {
                        assert(ls[l][i].first_key.len() <= KEY_MAX);
                    }
                }
            }
            assert forall|l: int| 0 <= l < LEVELS implies refs_wf(#[trigger] self.levels@[l]) by {
                if l != level {
                    assert(self.levels@[l] == old(self).levels@[l]);
                }
            }
            if old(self).padded() {
                assert(refs_padded(old_refs));
                assert forall|i: int| 0 <= i < new_refs.len() implies (
                #[trigger] new_refs[i]).padded() by {
                    assert(old_refs[if i < p { i } else { i + 1 }].padded());
                }
                assert forall|l: int| 0 <= l < LEVELS implies refs_padded(
                    #[trigger] self.levels@[l],
                ) by {
                    if l != level {
                        assert(self.levels@[l] == old(self).levels@[l]);
                    }
                }
            }
        }
        Ok(true)
    }

    /// Raises the live lower bound of table `id` at `level` to `first`:
    /// every entry and range-tombstone piece below `first` becomes dead to
    /// all readers. Returns `false` when the table is not at `level`.
    ///
    /// `first` must not exceed the table's `last_key` (the caller narrows
    /// only tables straddling the frontier).
    ///
    /// # Errors
    ///
    /// [`Error::NoSpace`] when `level` is out of range.
    pub fn narrow_table<E>(&mut self, level: usize, id: u32, first: KeyBound<KEY_MAX>) -> (r:
        Result<bool, Error<E>>)
        requires
            old(self).wf(),
            first.wf(),
            level < LEVELS ==> ({
                let ts = old(self)@.levels[level as int];
                let p = index_of_id(ts, id);
                p < ts.len() ==> lex_le(first@, ts[p].last_key)
            }),
        ensures
            final(self).wf(),
            old(self).padded() && first.padded() ==> final(self).padded(),
            if level >= LEVELS {
                &&& r == Err::<bool, Error<E>>(Error::NoSpace)
                &&& final(self)@ == old(self)@
            } else {
                let ts = old(self)@.levels[level as int];
                let p = index_of_id(ts, id);
                if p < ts.len() {
                    &&& r == Ok::<bool, Error<E>>(true)
                    &&& final(self)@ == (ManV {
                        levels: old(self)@.levels.update(
                            level as int,
                            ts.update(
                                p,
                                (TabV {
                                    first_key: if lex_lt(ts[p].first_key, first@) {
                                        first@
                                    } else {
                                        ts[p].first_key
                                    },
                                    ..ts[p]
                                }),
                            ),
                        ),
                        ..old(self)@
                    })
                } else {
                    &&& r == Ok::<bool, Error<E>>(false)
                    &&& final(self)@ == old(self)@
                }
            },
    {
        if level >= LEVELS {
            return Err(Error::NoSpace);
        }
        let p: usize = self.position(level, id);
        if p >= self.levels.count(level) {
            return Ok(false);
        }
        let ghost ls = self@.levels;
        let ghost old_refs = self.levels@[level as int];
        assert(refs_wf(old_refs));
        assert(old_refs[p as int].wf());
        assert(ls[level as int][p as int] == old_refs[p as int]@);
        let mut t: TableRef<KEY_MAX> = self.levels.row(level)[p];
        if bytes_lt(t.first_key.as_slice(), first.as_slice()) {
            t.first_key = first;
        }
        self.levels.put(level, p, t);
        proof {
            let new_refs = self.levels@[level as int];
            let nl = ls[level as int].update(p as int, t@);
            assert(new_refs =~= old_refs.update(p as int, t));
            assert(tab_views(new_refs) =~= nl);
            assert(self@.levels =~= ls.update(level as int, nl));
            lemma_total_update(ls, level as int, nl);
            assert(refs_wf(new_refs)) by {
                assert forall|i: int| 0 <= i < new_refs.len() implies (
                #[trigger] new_refs[i]).wf() by {
                    assert(old_refs[i].wf());
                }
            }
            assert(keys_fit(self@.levels, KEY_MAX as nat)) by {
                assert forall|l: int, i: int|
                    0 <= l < self@.levels.len() && 0 <= i < self@.levels[l].len() implies (
                #[trigger] self@.levels[l][i]).first_key.len() <= KEY_MAX
                    && self@.levels[l][i].last_key.len() <= KEY_MAX by {
                    if l == level {
                        assert(new_refs[i].wf());
                    } else {
                        assert(ls[l][i].first_key.len() <= KEY_MAX);
                    }
                }
            }
            assert forall|l: int| 0 <= l < LEVELS implies refs_wf(#[trigger] self.levels@[l]) by {
                if l != level {
                    assert(self.levels@[l] == old(self).levels@[l]);
                }
            }
            if old(self).padded() && first.padded() {
                assert(refs_padded(old_refs));
                assert(old_refs[p as int].padded());
                assert forall|i: int| 0 <= i < new_refs.len() implies (
                #[trigger] new_refs[i]).padded() by {
                    assert(old_refs[i].padded());
                }
                assert forall|l: int| 0 <= l < LEVELS implies refs_padded(
                    #[trigger] self.levels@[l],
                ) by {
                    if l != level {
                        assert(self.levels@[l] == old(self).levels@[l]);
                    }
                }
            }
        }
        Ok(true)
    }

    /// Highest sequence number across all live tables (0 when empty).
    ///
    /// Derived, so it can fall when compaction or archival removes tables.
    #[must_use]
    pub fn max_seq(&self) -> (r: u64)
        requires
            self.wf(),
        ensures
            r == top_of(flat(self@.levels)),
    {
        let ts: &[TableRef<KEY_MAX>] = self.tables();
        let mut m: u64 = 0;
        let mut i: usize = 0;
        let ghost all = tab_views(ts@);
        assert(all.take(0) =~= Seq::<TabV>::empty());
        while i < ts.len()
            invariant
                all == tab_views(ts@),
                i <= ts@.len(),
                m == top_of(all.take(i as int)),
            decreases ts@.len() - i,
        {
            assert(all.take(i + 1).drop_last() =~= all.take(i as int));
            assert(all.take(i + 1).last() == ts@[i as int]@);
            if ts[i].max_seq > m {
                m = ts[i].max_seq;
            }
            i = i + 1;
        }
        assert(all.take(i as int) =~= all);
        m
    }
}

/// The tables of the first levels, counted as items of a pool.
proof fn lemma_items<T>(rows: Seq<Seq<T>>, ls: Seq<Seq<TabV>>, n: int)
    requires
        rows.len() == ls.len(),
        forall|l: int| 0 <= l < ls.len() ==> (#[trigger] ls[l]).len() == rows[l].len(),
        0 <= n <= ls.len(),
    ensures
        total_tables(ls.take(n)) == items_before(rows, n),
    decreases n,
{
    if n == 0 {
        assert(ls.take(0) =~= Seq::<Seq<TabV>>::empty());
    } else {
        lemma_items(rows, ls, n - 1);
        lemma_total_snoc(ls.take(n - 1), ls[n - 1]);
        assert(ls.take(n) =~= ls.take(n - 1).push(ls[n - 1]));
        assert(ls[n - 1].len() == rows[n - 1].len());
    }
}

proof fn lemma_total_empty(ls: Seq<Seq<TabV>>)
    requires
        forall|i: int| 0 <= i < ls.len() ==> (#[trigger] ls[i]).len() == 0,
    ensures
        total_tables(ls) == 0,
    decreases ls.len(),
{
    if ls.len() > 0 {
        assert(ls[0].len() == 0);
        assert forall|i: int| 0 <= i < ls.skip(1).len() implies (#[trigger] ls.skip(1)[i]).len()
            == 0 by {
            assert(ls[i + 1].len() == 0);
        }
        lemma_total_empty(ls.skip(1));
    }
}

// ---------------------------------------------------------------------
// Encoding.

proof fn lemma_tabs_snoc(ts: Seq<TabV>, t: TabV)
    ensures
        tabs_bytes(ts.push(t)) == tabs_bytes(ts) + tab_bytes(t),
    decreases ts.len(),
{
    let w = ts.push(t);
    if ts.len() == 0 {
        assert(w.skip(1) =~= Seq::<TabV>::empty());
        assert(tabs_bytes(w.skip(1)) =~= Seq::<u8>::empty());
        assert(tabs_bytes(w) =~= tabs_bytes(ts) + tab_bytes(t));
    } else {
        assert(w.skip(1) =~= ts.skip(1).push(t));
        lemma_tabs_snoc(ts.skip(1), t);
        assert(tabs_bytes(w) =~= tabs_bytes(ts) + tab_bytes(t));
    }
}

proof fn lemma_levels_snoc(ls: Seq<Seq<TabV>>, ts: Seq<TabV>)
    ensures
        levels_bytes(ls.push(ts)) == levels_bytes(ls) + (le_bytes(ts.len(), 4) + tabs_bytes(ts)),
    decreases ls.len(),
{
    let w = ls.push(ts);
    if ls.len() == 0 {
        assert(w.skip(1) =~= Seq::<Seq<TabV>>::empty());
        assert(levels_bytes(w.skip(1)) =~= Seq::<u8>::empty());
    } else {
        assert(w.skip(1) =~= ls.skip(1).push(ts));
        lemma_levels_snoc(ls.skip(1), ts);
    }
    assert(levels_bytes(w) =~= levels_bytes(ls) + (le_bytes(ts.len(), 4) + tabs_bytes(ts)));
}

/// Streams the bytes of one table record.
fn put_tab<const KEY_MAX: usize>(w: &mut Window, out: &mut [u8], t: &TableRef<KEY_MAX>)
    requires
        t.wf(),
        old(w).shows(old(out)@),
        old(w).done().len() + 44 + t@.first_key.len() + t@.last_key.len() <= usize::MAX,
    ensures
        final(w).shows(final(out)@),
        final(w).done() == old(w).done() + tab_bytes(t@),
        forall|first: Seq<u8>, lo: int, hi: int, base: int|
            old(w).over(first, lo, hi, base) ==> #[trigger] final(w).over(first, lo, hi, base),
        final(out)@.len() == old(out)@.len(),
{
    proof {
        broadcast use lemma_le_bytes_len;

    }
    w.put_le(out, t.id as u64, 4);
    w.put_le(out, t.first_block, 8);
    w.put_le(out, t.block_count as u64, 4);
    w.put_le(out, t.first_key.len as u64, 2);
    w.put(out, t.first_key.as_slice());
    w.put_le(out, t.last_key.len as u64, 2);
    w.put(out, t.last_key.as_slice());
    w.put_le(out, t.max_seq, 8);
    w.put_le(out, t.min_seq, 8);
    w.put_le(out, t.entry_count as u64, 4);
    w.put_le(out, t.rdel_blocks as u64, 4);
    proof {
        reveal(tab_bytes);
        assert(w.done() =~= old(w).done() + tab_bytes(t@));
    }
}

/// The counters of a block header can name a copy of `v`.
pub open spec fn encodable(v: ManV, block: nat) -> bool {
    let body = body_bytes(v).len();
    let chunk = block - BLOCK_FRAME;
    &&& copy_blocks(v, block) <= 0xFFFF
    &&& (if body < chunk {
        body as int
    } else {
        chunk
    }) <= u32::MAX
}

/// Blocks a copy of the largest manifest of a shape takes.
pub open spec fn max_blocks_of(nlevels: usize, tables: usize, key_max: usize, block: nat) -> int {
    chunks_for(max_body(nlevels as int, tables as int, key_max as int), block - BLOCK_FRAME)
}

/// A copy's region has as many blocks as the longest manifest takes and no
/// more: 32 bytes, 4 per level, and 44 and two longest keys per table, with
/// 28 bytes of each block for its frame.
pub proof fn law_copy_size(nlevels: usize, tables: usize, key_max: usize, block: nat)
    requires
        block > 28,
    ensures
        ({
            let m = max_blocks_of(nlevels, tables, key_max, block);
            let body = 32 + 4 * nlevels + (nlevels * tables) * (44 + 2 * key_max);
            (m - 1) * (block - 28) < body <= m * (block - 28)
        }),
{
    let body = max_body(nlevels as int, tables as int, key_max as int);
    assert((nlevels * tables) * (44 + 2 * key_max) >= 0) by (nonlinear_arith)
        requires
            nlevels >= 0,
            tables >= 0,
            key_max >= 0,
    ;
    lemma_chunks(body, block - BLOCK_FRAME);
}

proof fn lemma_chunks(len: int, chunk: int)
    requires
        len >= 0,
        chunk > 0,
    ensures
        chunks_for(len, chunk) * chunk >= len,
        chunks_for(len, chunk) >= 0,
        len > 0 ==> (chunks_for(len, chunk) - 1) * chunk < len,
        len > 0 ==> chunks_for(len, chunk) >= 1,
{
    vstd::arithmetic::div_mod::lemma_fundamental_div_mod(len, chunk);
    vstd::arithmetic::div_mod::lemma_mod_bound(len, chunk);
    vstd::arithmetic::div_mod::lemma_div_pos_is_pos(len, chunk);
    let q = len / chunk;
    assert(chunk * q == q * chunk) by (nonlinear_arith);
    assert((q + 1) * chunk == q * chunk + chunk) by (nonlinear_arith);
    assert((q - 1) * chunk == q * chunk - chunk) by (nonlinear_arith);
    if len > 0 && q == 0 {
        assert(q * chunk == 0) by (nonlinear_arith)
            requires
                q == 0,
        ;
    }
}

proof fn lemma_chunks_mono(a: int, b: int, chunk: int)
    requires
        0 <= a <= b,
        chunk > 0,
    ensures
        chunks_for(a, chunk) <= chunks_for(b, chunk),
{
    lemma_chunks(a, chunk);
    lemma_chunks(b, chunk);
    let x = chunks_for(a, chunk);
    let y = chunks_for(b, chunk);
    if x > y {
        if a > 0 {
            assert((x - 1) * chunk >= y * chunk) by (nonlinear_arith)
                requires
                    x - 1 >= y,
                    chunk > 0,
            ;
        } else {
            assert(chunks_for(0, chunk) == 0) by {
                vstd::arithmetic::div_mod::lemma_div_of0(chunk);
                vstd::arithmetic::div_mod::lemma_mod_self_0(chunk);
                vstd::arithmetic::div_mod::lemma_small_mod(0, chunk as nat);
            }
        }
    }
}

/// How many chunks of `chunk` bytes hold `len` bytes.
fn count_chunks(len: usize, chunk: usize) -> (r: usize)
    requires
        chunk > 0,
    ensures
        r == chunks_for(len as int, chunk as int),
{
    let q: usize = len / chunk;
    if len % chunk == 0 {
        q
    } else {
        proof {
            vstd::arithmetic::div_mod::lemma_fundamental_div_mod(len as int, chunk as int);
            assert(q < len) by (nonlinear_arith)
                requires
                    len == chunk * q + len % chunk,
                    len % chunk > 0,
                    chunk > 0,
                    q >= 0,
            ;
        }
        q + 1
    }
}

impl<const LEVELS: usize, const TABLES: usize, const KEY_MAX: usize> Manifest<
    LEVELS,
    TABLES,
    KEY_MAX,
> {
    /// The body up to a table, and one table more, is no longer than the
    /// longest body.
    proof fn lemma_prefix_fits(&self, l: int, i: int)
        requires
            self.wf(),
            0 <= l < LEVELS,
            0 <= i <= self@.levels[l].len(),
        ensures
            ({
                let ls = self@.levels;
                36 + levels_bytes(ls.take(l)).len() + tabs_bytes(ls[l].take(i)).len() + (if i
                    < ls[l].len() {
                    44 + 2 * KEY_MAX
                } else {
                    0
                }) <= max_body(LEVELS as int, TABLES as int, KEY_MAX as int) <= usize::MAX
            }),
    {
        let ls = self@.levels;
        let per = 44 + 2 * KEY_MAX as int;
        let a = total_tables(ls.take(l)) as int;
        let more = if i < ls[l].len() {
            1int
        } else {
            0int
        };
        assert(keys_fit(ls.take(l), KEY_MAX as nat)) by {
            assert forall|m: int, x: int|
                0 <= m < ls.take(l).len() && 0 <= x < ls.take(l)[m].len() implies (
            #[trigger] ls.take(l)[m][x]).first_key.len() <= KEY_MAX
                && ls.take(l)[m][x].last_key.len() <= KEY_MAX by {
                assert(ls[m][x].first_key.len() <= KEY_MAX);
            }
        }
        lemma_levels_len(ls.take(l), KEY_MAX as nat);
        assert forall|x: int| 0 <= x < ls[l].take(i).len() implies (
        #[trigger] ls[l].take(i)[x]).first_key.len() <= KEY_MAX && ls[l].take(
            i,
        )[x].last_key.len() <= KEY_MAX by {
            assert(ls[l][x].first_key.len() <= KEY_MAX);
        }
        lemma_tabs_len(ls[l].take(i), KEY_MAX as nat);
        lemma_total_take(ls, l + 1);
        lemma_total_snoc(ls.take(l), ls[l]);
        assert(ls.take(l + 1) =~= ls.take(l).push(ls[l]));
        assert((a + i + more) * per == a * per + i * per + more * per) by (nonlinear_arith);
        assert((a + i + more) * per <= (LEVELS * TABLES) * per) by (nonlinear_arith)
            requires
                a + i + more <= LEVELS * TABLES,
                per >= 0,
        ;
        assert(more * per == (if more == 1 {
            per
        } else {
            0
        })) by (nonlinear_arith)
            requires
                more == 0 || more == 1,
        ;
    }

    /// Streams the body of this manifest's copy.
    #[verifier::rlimit(40)]
    fn write_body(&self, w: &mut Window, out: &mut [u8])
        requires
            self.wf(),
            old(w).shows(old(out)@),
            old(w).done() == Seq::<u8>::empty(),
        ensures
            final(w).shows(final(out)@),
            final(w).done() == body_bytes(self@),
            forall|first: Seq<u8>, lo: int, hi: int, base: int|
                old(w).over(first, lo, hi, base) ==> #[trigger] final(w).over(first, lo, hi, base),
            final(out)@.len() == old(out)@.len(),
            32 <= body_bytes(self@).len() <= max_body(LEVELS as int, TABLES as int, KEY_MAX as int),
    {
        proof {
            broadcast use lemma_le_bytes_len;

            self.lemma_prefix_fits(0, 0);
        }
        w.put_le(out, self.wal_head, 8);
        w.put_le(out, self.next_table_id as u64, 4);
        w.put_le(out, self.flushed_seq, 8);
        w.put_le(out, self.seq_high, 8);
        w.put_le(out, LEVELS as u64, 4);
        let ghost ls = self@.levels;
        let ghost fixed = fixed_bytes(self@);
        proof {
            reveal(fixed_bytes);
            lemma_fixed_len(self@);
            assert(w.done() =~= fixed);
            assert(ls.take(0) =~= Seq::<Seq<TabV>>::empty());
            assert(w.done() =~= fixed + levels_bytes(ls.take(0)));
        }
        let mut l: usize = 0;
        while l < LEVELS
            invariant
                self.wf(),
                self.levels@.len() == LEVELS,
                ls == self@.levels,
                ls.len() == LEVELS,
                l <= LEVELS,
                fixed.len() == 32,
                w.shows(out@),
                w.done() == fixed + levels_bytes(ls.take(l as int)),
                forall|first: Seq<u8>, lo: int, hi: int, base: int|
                    old(w).over(first, lo, hi, base) ==> #[trigger] w.over(first, lo, hi, base),
                out@.len() == old(out)@.len(),
            decreases LEVELS - l,
        {
            let row: &[TableRef<KEY_MAX>] = self.levels.row(l);
            let n: usize = row.len();
            let ghost before = w.done();
            let ghost ts = ls[l as int];
            proof {
                assert(n == ts.len());
                self.lemma_prefix_fits(l as int, 0);
                assert(ts.take(0) =~= Seq::<TabV>::empty());
                lemma_le_bytes_len(n as nat, 4);
            }
            w.put_le(out, n as u64, 4);
            let mut i: usize = 0;
            assert(w.done() =~= before + le_bytes(n as nat, 4) + tabs_bytes(ts.take(0)));
            while i < n
                invariant
                    self.wf(),
                    self.levels@.len() == LEVELS,
                    l < LEVELS,
                    ls == self@.levels,
                    row@ == self.levels@[l as int],
                    n == row@.len(),
                    ts == self@.levels[l as int],
                    ts.len() == n,
                    i <= n,
                    fixed.len() == 32,
                    before == fixed + levels_bytes(ls.take(l as int)),
                    w.shows(out@),
                    w.done() == before + le_bytes(n as nat, 4) + tabs_bytes(ts.take(i as int)),
                    forall|first: Seq<u8>, lo: int, hi: int, base: int|
                        old(w).over(first, lo, hi, base) ==> #[trigger] w.over(first, lo, hi, base),
                    out@.len() == old(out)@.len(),
                decreases n - i,
            {
                proof {
                    assert(refs_wf(self.levels@[l as int]));
                    assert(row@[i as int].wf());
                    assert(ts[i as int] == row@[i as int]@);
                    self.lemma_prefix_fits(l as int, i as int);
                    lemma_le_bytes_len(n as nat, 4);
                }
                put_tab(w, out, &row[i]);
                proof {
                    assert(ts.take(i + 1) =~= ts.take(i as int).push(ts[i as int]));
                    lemma_tabs_snoc(ts.take(i as int), ts[i as int]);
                    assert(w.done() =~= before + le_bytes(n as nat, 4) + tabs_bytes(
                        ts.take(i + 1),
                    ));
                }
                i = i + 1;
            }
            proof {
                assert(ts.take(n as int) =~= ts);
                assert(ls.take(l + 1) =~= ls.take(l as int).push(ts));
                lemma_levels_snoc(ls.take(l as int), ts);
                assert(w.done() =~= fixed + levels_bytes(ls.take(l + 1)));
            }
            l = l + 1;
        }
        proof {
            assert(ls.take(LEVELS as int) =~= ls);
            lemma_levels_len(ls, KEY_MAX as nat);
            assert(total_tables(ls) * (44 + 2 * KEY_MAX) <= (LEVELS * TABLES) * (44 + 2 * KEY_MAX))
                by (nonlinear_arith)
                requires
                    0 <= total_tables(ls) <= LEVELS * TABLES,
                    KEY_MAX >= 0,
            ;
        }
    }

    /// Blocks one copy of this manifest shape can need, at most: the size
    /// of every copy in a [`ManifestLayout`].
    #[must_use]
    pub fn max_blocks<const BLOCK: usize>() -> (r: u64)
        requires
            manifest_shape(LEVELS, TABLES, KEY_MAX),
            BLOCK > BLOCK_FRAME,
        ensures
            r == max_blocks_of(LEVELS, TABLES, KEY_MAX, BLOCK as nat),
    {
        proof {
            assert((LEVELS * TABLES) * (44 + 2 * KEY_MAX) >= 0) by (nonlinear_arith)
                requires
                    LEVELS >= 0,
                    TABLES >= 0,
                    KEY_MAX >= 0,
            ;
        }
        let per: usize = 44 + 2 * KEY_MAX;
        let refs: usize = LEVELS * TABLES * per;
        let body: usize = 32 + 4 * LEVELS + refs;
        count_chunks(body, BLOCK - BLOCK_FRAME) as u64
    }

    /// Body bytes this manifest encodes to.
    #[must_use]
    pub fn body_len(&self) -> (r: usize)
        requires
            self.wf(),
        ensures
            r == body_bytes(self@).len(),
            32 <= r <= max_body(LEVELS as int, TABLES as int, KEY_MAX as int),
    {
        // Every byte falls outside an empty window.
        let mut none: [u8; 0] = [];
        let mut w: Window = Window::new(0, 0, 0, Ghost(none@));
        self.write_body(&mut w, &mut none);
        w.count(Ghost(none@))
    }

    /// Blocks this manifest's copy occupies now.
    #[must_use]
    pub fn encoded_blocks<const BLOCK: usize>(&self) -> (r: usize)
        requires
            self.wf(),
            BLOCK > BLOCK_FRAME,
        ensures
            r == copy_blocks(self@, BLOCK as nat),
            1 <= r <= max_blocks_of(LEVELS, TABLES, KEY_MAX, BLOCK as nat),
    {
        let n: usize = self.body_len();
        proof {
            lemma_chunks(n as int, BLOCK - BLOCK_FRAME);
            lemma_chunks_mono(
                n as int,
                max_body(LEVELS as int, TABLES as int, KEY_MAX as int),
                BLOCK - BLOCK_FRAME,
            );
        }
        count_chunks(n, BLOCK - BLOCK_FRAME)
    }

    /// Encodes block `index` of this manifest's copy into `out`: header,
    /// the body's `index`-th chunk, CRC, zero padding.
    ///
    /// # Errors
    ///
    /// [`Error::NoSpace`] when `index` is past the copy's last block, or the
    /// copy is too large for the header's counters.
    pub fn encode_block<E, const BLOCK: usize>(&self, index: usize, out: &mut [u8; BLOCK]) -> (r:
        Result<(), Error<E>>)
        requires
            self.wf(),
            BLOCK > BLOCK_FRAME,
        ensures
            if index < copy_blocks(self@, BLOCK as nat) && encodable(self@, BLOCK as nat) {
                &&& r == Ok::<(), Error<E>>(())
                &&& final(out)@ == block_bytes(self@, index as int, BLOCK as nat)
            } else {
                &&& r == Err::<(), Error<E>>(Error::NoSpace)
                &&& final(out)@ == old(out)@
            },
    {
        let total: usize = self.body_len();
        let ghost body = body_bytes(self@);
        let chunk: usize = BLOCK - BLOCK_FRAME;
        let count: usize = count_chunks(total, chunk);
        if index >= count || count > 0xFFFF {
            return Err(Error::NoSpace);
        }
        let top: usize = if total < chunk {
            total
        } else {
            chunk
        };
        if top as u64 > u32::MAX as u64 {
            return Err(Error::NoSpace);
        }
        proof {
            lemma_chunks(total as int, chunk as int);
            assert(index * chunk < total) by (nonlinear_arith)
                requires
                    index <= count - 1,
                    (count - 1) * chunk < total,
                    chunk > 0,
            ;
            assert(index * chunk >= 0) by (nonlinear_arith)
                requires
                    index >= 0,
                    chunk > 0,
            ;
        }
        let lo: usize = index * chunk;
        let hi: usize = if total - lo > chunk {
            lo + chunk
        } else {
            total
        };
        let len: usize = hi - lo;
        let ghost piece = chunk_of(body, index as int, chunk as int);
        assert(piece == body.subrange(lo as int, hi as int));
        zero_fill(out, 0, BLOCK);
        store_le(out, 0, MANIFEST_MAGIC, 8);
        store_le(out, 8, self.seq, 8);
        store_le(out, 16, index as u64, 2);
        store_le(out, 18, count as u64, 2);
        store_le(out, 20, len as u64, 4);
        let ghost headed = out@;
        let ghost head = le_bytes(MANIFEST_MAGIC as nat, 8) + le_bytes(self.seq as nat, 8)
            + le_bytes(index as nat, 2) + le_bytes(count as nat, 2) + le_bytes(len as nat, 4);
        proof {
            broadcast use lemma_le_bytes_len;

            reveal(spliced);
            assert(headed =~= padded(head, BLOCK as nat));
        }
        let mut w: Window = Window::new(lo, hi, BLOCK_HEADER, Ghost(headed));
        self.write_body(&mut w, out);
        let ghost f = framed_bytes(self@.seq, index as nat, count as nat, piece);
        proof {
            broadcast use lemma_le_bytes_len;

            w.lemma_shows(out@, headed, lo as int, hi as int, BLOCK_HEADER as int);
            reveal(framed_bytes);
            assert(out@.subrange(0, BLOCK_HEADER + len) =~= f);
            assert(out@ =~= padded(f, BLOCK as nat));
        }
        let end: usize = BLOCK_HEADER + len;
        let crc: u32 = crc32(&out[0..end]);
        store_le(out, end, crc as u64, 4);
        proof {
            broadcast use lemma_le_bytes_len;

            reveal(spliced);
            assert(out@ =~= padded(f + le_bytes(crc as nat, 4), BLOCK as nat));
            assert(out@ =~= block_bytes(self@, index as int, BLOCK as nat));
        }
        Ok(())
    }

    /// Serializes a manifest that fits one block into `out` (a one-block
    /// copy). Commits go through [`commit_to`](Self::commit_to), which
    /// spreads larger manifests over several blocks.
    ///
    /// # Errors
    ///
    /// [`Error::NoSpace`] when the manifest needs more than one block.
    pub fn encode<E, const BLOCK: usize>(&self, out: &mut [u8; BLOCK]) -> (r: Result<(), Error<E>>)
        requires
            self.wf(),
            BLOCK > BLOCK_FRAME,
        ensures
            if copy_blocks(self@, BLOCK as nat) == 1 && encodable(self@, BLOCK as nat) {
                &&& r == Ok::<(), Error<E>>(())
                &&& final(out)@ == block_bytes(self@, 0, BLOCK as nat)
            } else {
                &&& r == Err::<(), Error<E>>(Error::NoSpace)
                &&& final(out)@ == old(out)@
            },
    {
        if self.encoded_blocks::<BLOCK>() > 1 {
            return Err(Error::NoSpace);
        }
        self.encode_block(0, out)
    }
}

// ---------------------------------------------------------------------
// Decoding.

/// Takes a length-prefixed key.
fn next_key<E, S: BodySource<E>, const KEY_MAX: usize>(src: &mut S) -> (r: Result<
    KeyBound<KEY_MAX>,
    Error<E>,
>)
    requires
        old(src).ready(),
    ensures
        final(src).sure() == old(src).sure(),
        final(src).origin() == old(src).origin(),
        r is Ok ==> final(src).ready(),
        match take_key(old(src).rest(), KEY_MAX as nat) {
            None => refused(r, old(src).sure()),
            Some((k, rest)) => lost(r, old(src).sure()) || (r matches Ok(b) && {
                &&& b.wf()
                &&& b.padded()
                &&& b@ == k
                &&& final(src).rest() == rest
            }),
        },
{
    proof {
        lemma_pow256();
    }
    let len: u64 = match next_le(src, 2) {
        Ok(v) => v,
        Err(e) => {
            return Err(e);
        },
    };
    let n: usize = len as usize;
    if n > KEY_MAX {
        return Err(Error::CorruptManifest);
    }
    let mut bytes: [u8; KEY_MAX] = [0; KEY_MAX];
    let ghost zero = bytes@;
    let ghost s = src.rest();
    match src.take(&mut bytes, n) {
        Ok(()) => {},
        Err(e) => {
            return Err(e);
        },
    }
    let b = KeyBound { len: n as u16, bytes };
    proof {
        lemma_splice_index(zero, 0, s.take(n as int));
        assert(b@ =~= s.take(n as int));
    }
    Ok(b)
}

/// Takes a table record.
fn next_tab<E, S: BodySource<E>, const KEY_MAX: usize>(src: &mut S) -> (r: Result<
    TableRef<KEY_MAX>,
    Error<E>,
>)
    requires
        old(src).ready(),
    ensures
        final(src).sure() == old(src).sure(),
        final(src).origin() == old(src).origin(),
        r is Ok ==> final(src).ready(),
        match take_tab(old(src).rest(), KEY_MAX as nat) {
            None => refused(r, old(src).sure()),
            Some((t, rest)) => lost(r, old(src).sure()) || (r matches Ok(b) && {
                &&& b.wf()
                &&& b.padded()
                &&& b@ == t
                &&& final(src).rest() == rest
            }),
        },
{
    proof {
        lemma_pow256();
    }
    let id: u64 = match next_le(src, 4) {
        Ok(v) => v,
        Err(e) => {
            return Err(e);
        },
    };
    let first_block: u64 = match next_le(src, 8) {
        Ok(v) => v,
        Err(e) => {
            return Err(e);
        },
    };
    let block_count: u64 = match next_le(src, 4) {
        Ok(v) => v,
        Err(e) => {
            return Err(e);
        },
    };
    let first_key: KeyBound<KEY_MAX> = match next_key(src) {
        Ok(v) => v,
        Err(e) => {
            return Err(e);
        },
    };
    let last_key: KeyBound<KEY_MAX> = match next_key(src) {
        Ok(v) => v,
        Err(e) => {
            return Err(e);
        },
    };
    let max_seq: u64 = match next_le(src, 8) {
        Ok(v) => v,
        Err(e) => {
            return Err(e);
        },
    };
    let min_seq: u64 = match next_le(src, 8) {
        Ok(v) => v,
        Err(e) => {
            return Err(e);
        },
    };
    let entry_count: u64 = match next_le(src, 4) {
        Ok(v) => v,
        Err(e) => {
            return Err(e);
        },
    };
    let rdel_blocks: u64 = match next_le(src, 4) {
        Ok(v) => v,
        Err(e) => {
            return Err(e);
        },
    };
    Ok(
        TableRef {
            id: id as u32,
            first_block,
            block_count: block_count as u32,
            first_key,
            last_key,
            max_seq,
            min_seq,
            entry_count: entry_count as u32,
            rdel_blocks: rdel_blocks as u32,
        },
    )
}

/// A parse of more items, behind those already parsed.
spec fn behind_tabs(done: Seq<TabV>, r: Option<(Seq<TabV>, Seq<u8>)>) -> Option<
    (Seq<TabV>, Seq<u8>),
> {
    match r {
        None => None,
        Some((ts, rest)) => Some((done + ts, rest)),
    }
}

/// A parse of more levels, behind those already parsed.
spec fn behind_levels(done: Seq<Seq<TabV>>, r: Option<(Seq<Seq<TabV>>, Seq<u8>)>) -> Option<
    (Seq<Seq<TabV>>, Seq<u8>),
> {
    match r {
        None => None,
        Some((ls, rest)) => Some((done + ls, rest)),
    }
}

/// Takes `count` table records into an empty level.
fn next_tabs<
    E,
    S: BodySource<E>,
    const LEVELS: usize,
    const TABLES: usize,
    const KEY_MAX: usize,
>(
    out: &mut Pool<TableRef<KEY_MAX>, LEVELS, TABLES>,
    level: usize,
    src: &mut S,
    count: usize,
) -> (r: Result<(), Error<E>>)
    requires
        old(out).wf(),
        level < LEVELS,
        old(out)@.len() == LEVELS,
        old(out)@[level as int].len() == 0,
        items_before(old(out)@, LEVELS as int) + count <= LEVELS * TABLES,
        old(src).ready(),
    ensures
        final(out).wf(),
        final(src).sure() == old(src).sure(),
        final(src).origin() == old(src).origin(),
        r is Ok ==> final(src).ready(),
        match take_tabs(old(src).rest(), count as nat, KEY_MAX as nat) {
            None => refused(r, old(src).sure()),
            Some((ts, rest)) => lost(r, old(src).sure()) || (r is Ok && {
                let row = final(out)@[level as int];
                &&& final(out)@ == old(out)@.update(level as int, row)
                &&& refs_wf(row)
                &&& refs_padded(row)
                &&& tab_views(row) == ts
                &&& row.len() == count
                &&& final(src).rest() == rest
            }),
        },
{
    let mut i: usize = 0;
    let ghost rows = out@;
    let ghost l = level as int;
    let ghost whole = take_tabs(src.rest(), count as nat, KEY_MAX as nat);
    let ghost sure = src.sure();
    proof {
        assert(tab_views(out@[l]) =~= Seq::<TabV>::empty());
        assert(rows.update(l, rows[l]) =~= rows);
        if whole is Some {
            assert(Seq::<TabV>::empty() + (whole->0).0 =~= (whole->0).0);
        }
    }
    while i < count
        invariant
            i <= count,
            l == level < LEVELS,
            rows == old(out)@,
            rows.len() == LEVELS,
            rows[l].len() == 0,
            items_before(rows, LEVELS as int) + count <= LEVELS * TABLES,
            out.wf(),
            out@ == rows.update(l, out@[l]),
            out@[l].len() == i,
            refs_wf(out@[l]),
            refs_padded(out@[l]),
            src.ready(),
            sure == old(src).sure(),
            src.sure() == sure,
            src.origin() == old(src).origin(),
            whole == take_tabs(old(src).rest(), count as nat, KEY_MAX as nat),
            whole == behind_tabs(
                tab_views(out@[l]),
                take_tabs(src.rest(), (count - i) as nat, KEY_MAX as nat),
            ),
        decreases count - i,
    {
        let ghost done = tab_views(out@[l]);
        let ghost row = out@[l];
        let t: TableRef<KEY_MAX> = match next_tab(src) {
            Ok(t) => t,
            Err(e) => {
                return Err(e);
            },
        };
        proof {
            lemma_items_update(rows, l, row, LEVELS as int);
        }
        out.insert(level, i, t);
        proof {
            assert(out@[l] =~= row.push(t));
            assert(out@ =~= rows.update(l, out@[l]));
            assert(tab_views(out@[l]) =~= done + seq![t@]);
            let tail = take_tabs(src.rest(), (count - i - 1) as nat, KEY_MAX as nat);
            if tail is Some {
                assert(done + (seq![t@] + (tail->0).0) =~= done + seq![t@] + (tail->0).0);
            }
        }
        i = i + 1;
    }
    proof {
        assert(tab_views(out@[l]) + Seq::<TabV>::empty() =~= tab_views(out@[l]));
    }
    Ok(())
}

/// The views of levels of refs.
spec fn level_views<const KEY_MAX: usize>(ls: Seq<Seq<TableRef<KEY_MAX>>>) -> Seq<Seq<TabV>> {
    Seq::new(ls.len(), |l: int| tab_views(ls[l]))
}

impl<const LEVELS: usize, const TABLES: usize, const KEY_MAX: usize> Manifest<
    LEVELS,
    TABLES,
    KEY_MAX,
> {
    /// Takes the levels.
    #[verifier::rlimit(40)]
    fn next_levels<E, S: BodySource<E>>(src: &mut S) -> (r: Result<
        Pool<TableRef<KEY_MAX>, LEVELS, TABLES>,
        Error<E>,
    >)
        requires
            manifest_shape(LEVELS, TABLES, KEY_MAX),
            old(src).ready(),
        ensures
            final(src).sure() == old(src).sure(),
            final(src).origin() == old(src).origin(),
            r is Ok ==> final(src).ready(),
            ({
                let cap = (LEVELS * TABLES) as nat;
                let cap0 = if (TABLES as nat) < cap {
                    TABLES as nat
                } else {
                    cap
                };
                match take_levels(old(src).rest(), LEVELS as nat, cap0, cap, KEY_MAX as nat) {
                    None => refused(r, old(src).sure()),
                    Some((ls, rest)) => lost(r, old(src).sure()) || (r matches Ok(b) && {
                        &&& b.wf()
                        &&& b@.len() == LEVELS
                        &&& forall|l: int|
                            0 <= l < LEVELS ==> refs_wf(#[trigger] b@[l]) && refs_padded(b@[l])
                        &&& level_views(b@) == ls
                        &&& total_tables(ls) <= cap
                        &&& ls[0].len() <= TABLES
                        &&& final(src).rest() == rest
                    }),
                }
            }),
    {
        proof {
            lemma_pow256();
        }
        let mut out: Pool<TableRef<KEY_MAX>, LEVELS, TABLES> = Pool::new(TableRef::empty());
        let cap: usize = LEVELS * TABLES;
        let mut left: usize = cap;
        let mut l: usize = 0;
        let mut top: usize = if TABLES < cap {
            TABLES
        } else {
            cap
        };
        let ghost cap0 = top as nat;
        let ghost sure = src.sure();
        let ghost whole = take_levels(src.rest(), LEVELS as nat, cap0, cap as nat, KEY_MAX as nat);
        proof {
            assert forall|i: int| 0 <= i < LEVELS implies (#[trigger] out@[i]).len() == 0 by {}
            lemma_items_none(out@, LEVELS as int);
            assert(level_views(out@.take(0)) =~= Seq::<Seq<TabV>>::empty());
            if whole is Some {
                assert(Seq::<Seq<TabV>>::empty() + (whole->0).0 =~= (whole->0).0);
            }
        }
        while l < LEVELS
            invariant
                pow256(4) == 0x1_0000_0000,
                cap0 == (if TABLES < cap {
                    TABLES as nat
                } else {
                    cap as nat
                }),
                sure == old(src).sure(),
                src.sure() == sure,
                src.origin() == old(src).origin(),
                src.ready(),
                whole == take_levels(
                    old(src).rest(),
                    LEVELS as nat,
                    cap0,
                    cap as nat,
                    KEY_MAX as nat,
                ),
                manifest_shape(LEVELS, TABLES, KEY_MAX),
                cap == LEVELS * TABLES,
                l <= LEVELS,
                out.wf(),
                out@.len() == LEVELS,
                forall|i: int| l <= i < LEVELS ==> (#[trigger] out@[i]).len() == 0,
                items_before(out@, LEVELS as int) + left == cap,
                left <= cap,
                top <= left,
                l == 0 ==> top <= TABLES,
                l > 0 ==> top == left && level_views(out@.take(l as int))[0].len() <= TABLES,
                total_tables(level_views(out@.take(l as int))) + left == cap,
                forall|i: int|
                    0 <= i < l ==> refs_wf(#[trigger] out@[i]) && refs_padded(out@[i]),
                whole == behind_levels(
                    level_views(out@.take(l as int)),
                    take_levels(
                        src.rest(),
                        (LEVELS - l) as nat,
                        top as nat,
                        left as nat,
                        KEY_MAX as nat,
                    ),
                ),
            decreases LEVELS - l,
        {
            let ghost rows = out@;
            let ghost done = level_views(out@.take(l as int));
            let count: u64 = match next_le(src, 4) {
                Ok(v) => v,
                Err(e) => {
                    return Err(e);
                },
            };
            if count > top as u64 || count > left as u64 {
                return Err(Error::CorruptManifest);
            }
            let n: usize = count as usize;
            assert(rows[l as int].len() == 0);
            match next_tabs(&mut out, l, src, n) {
                Ok(()) => {},
                Err(e) => {
                    return Err(e);
                },
            }
            proof {
                let row = out@[l as int];
                let tv = tab_views(row);
                lemma_items_update(rows, l as int, row, LEVELS as int);
                assert forall|i: int| 0 <= i < LEVELS && i != l implies #[trigger] out@[i]
                    == rows[i] by {}
                assert(level_views(out@.take(l + 1)) =~= done.push(tv));
                lemma_total_snoc(done, tv);
                let tail = take_levels(
                    src.rest(),
                    (LEVELS - l - 1) as nat,
                    (left - n) as nat,
                    (left - n) as nat,
                    KEY_MAX as nat,
                );
                if tail is Some {
                    assert(done + (seq![tv] + (tail->0).0) =~= done.push(tv) + (tail->0).0);
                }
                assert(level_views(out@.take(l + 1))[0].len() <= TABLES) by {
                    if l > 0 {
                        assert(done.push(tv)[0] == done[0]);
                    }
                }
            }
            left = left - n;
            top = left;
            l = l + 1;
        }
        proof {
            assert(out@.take(LEVELS as int) =~= out@);
            assert(level_views(out@) + Seq::<Seq<TabV>>::empty() =~= level_views(out@));
        }
        Ok(out)
    }

    /// Parses a body from `src`: [`Error::CorruptManifest`] on any
    /// inconsistency. What is behind it is left.
    fn decode_body<E, S: BodySource<E>>(src: &mut S, seq: u64) -> (r: Result<Self, Error<E>>)
        requires
            manifest_shape(LEVELS, TABLES, KEY_MAX),
            old(src).ready(),
        ensures
            final(src).sure() == old(src).sure(),
            final(src).origin() == old(src).origin(),
            r is Ok ==> final(src).ready(),
            match body_lead(
                old(src).rest(),
                seq,
                LEVELS as nat,
                TABLES as nat,
                KEY_MAX as nat,
            ) {
                None => refused(r, old(src).sure()),
                Some((v, rest)) => lost(r, old(src).sure()) || (r matches Ok(m) && {
                    &&& m.wf()
                    &&& m.padded()
                    &&& m@ == v
                    &&& final(src).rest() == rest
                }),
            },
    {
        proof {
            lemma_pow256();
        }
        let wal_head: u64 = match next_le(src, 8) {
            Ok(v) => v,
            Err(e) => {
                return Err(e);
            },
        };
        let next_table_id: u64 = match next_le(src, 4) {
            Ok(v) => v,
            Err(e) => {
                return Err(e);
            },
        };
        let flushed_seq: u64 = match next_le(src, 8) {
            Ok(v) => v,
            Err(e) => {
                return Err(e);
            },
        };
        let seq_high: u64 = match next_le(src, 8) {
            Ok(v) => v,
            Err(e) => {
                return Err(e);
            },
        };
        let n: u64 = match next_le(src, 4) {
            Ok(v) => v,
            Err(e) => {
                return Err(e);
            },
        };
        if n != LEVELS as u64 {
            return Err(Error::CorruptManifest);
        }
        let levels: Pool<TableRef<KEY_MAX>, LEVELS, TABLES> = match Self::next_levels(src) {
            Ok(ls) => ls,
            Err(e) => {
                return Err(e);
            },
        };
        let m = Manifest {
            seq,
            wal_head,
            next_table_id: next_table_id as u32,
            flushed_seq,
            seq_high,
            levels,
        };
        proof {
            assert(m@.levels =~= level_views(levels@));
            assert(keys_fit(m@.levels, KEY_MAX as nat)) by {
                assert forall|l: int, i: int|
                    0 <= l < m@.levels.len() && 0 <= i < m@.levels[l].len() implies (
                #[trigger] m@.levels[l][i]).first_key.len() <= KEY_MAX
                    && m@.levels[l][i].last_key.len() <= KEY_MAX by {
                    assert(refs_wf(levels@[l]));
                    assert(levels@[l][i].wf());
                }
            }
        }
        Ok(m)
    }

    /// Decodes a one-block copy (the inverse of [`encode`](Self::encode)).
    /// Any structural problem yields [`Error::CorruptManifest`], never a
    /// partial manifest.
    ///
    /// # Errors
    ///
    /// [`Error::CorruptManifest`] on any inconsistency, including a copy
    /// that spans more than one block.
    pub fn decode<E, const BLOCK: usize>(buf: &[u8; BLOCK]) -> (r: Result<Self, Error<E>>)
        requires
            manifest_shape(LEVELS, TABLES, KEY_MAX),
        ensures
            match block_parse(buf@, LEVELS as nat, TABLES as nat, KEY_MAX as nat) {
                None => r == Err::<Self, Error<E>>(Error::CorruptManifest),
                Some(v) => r matches Ok(m) && m.wf() && m.padded() && m@ == v,
            },
    {
        match check_block(buf) {
            None => Err(Error::CorruptManifest),
            Some(head) => {
                if head.index != 0 || head.count != 1 {
                    return Err(Error::CorruptManifest);
                }
                let body: &[u8] = &buf[BLOCK_HEADER..BLOCK_HEADER + head.len];
                let mut src: SliceSource<'_> = SliceSource::new(body);
                proof {
                    src.lemma_whole::<E>(body@);
                }
                let m: Self = match Self::decode_body::<E, SliceSource<'_>>(&mut src, head.seq) {
                    Ok(m) => m,
                    Err(e) => {
                        return Err(e);
                    },
                };
                if !src.ended::<E>() {
                    return Err(Error::CorruptManifest);
                }
                Ok(m)
            },
        }
    }
}

/// The manifest at the front of `s`, and the bytes behind it.
spec fn body_lead(s: Seq<u8>, seq: u64, nlevels: nat, tables: nat, key_max: nat) -> Option<
    (ManV, Seq<u8>),
> {
    match take_fixed(s, nlevels) {
        None => None,
        Some((v, s1)) => {
            let cap = nlevels * tables;
            let cap0 = if tables < cap {
                tables
            } else {
                cap
            };
            match take_levels(s1, nlevels, cap0, cap, key_max) {
                None => None,
                Some((levels, rest)) => Some((ManV { seq, levels, ..v }, rest)),
            }
        },
    }
}

/// The manifest a one-block copy decodes to.
pub open spec fn block_parse(b: Seq<u8>, nlevels: nat, tables: nat, key_max: nat) -> Option<ManV> {
    match head_of(b) {
        None => None,
        Some(h) => if h.index != 0 || h.count != 1 {
            None
        } else {
            body_parse(b.subrange(24, 24 + h.len as int), h.seq, nlevels, tables, key_max)
        },
    }
}

/// A changed byte in a valid block, and so a flipped bit, is found: the
/// block does not decode. The byte is one of the header before the length,
/// of the body or of the CRC.
pub proof fn law_flip_detected(
    a: Seq<u8>,
    b: Seq<u8>,
    i: int,
    nlevels: nat,
    tables: nat,
    key_max: nat,
)
    requires
        head_of(a) is Some,
        b.len() == a.len(),
        0 <= i < 20 || 24 <= i < 28 + head_of(a)->0.len,
        a[i] != b[i],
        forall|k: int| 0 <= k < a.len() && k != i ==> a[k] == b[k],
    ensures
        block_parse(b, nlevels, tables, key_max) is None,
{
    let len = head_of(a)->0.len;
    let end = 24 + len as int;
    assert(a.subrange(20, 24) =~= b.subrange(20, 24));
    let x = a.subrange(end, end + 4);
    let y = b.subrange(end, end + 4);
    if i < end {
        assert(x =~= y);
        crate::crc::law_one_byte_changes_crc(a.subrange(0, end), b.subrange(0, end), i);
    } else {
        assert(a.subrange(0, end) =~= b.subrange(0, end));
        assert(x[i - end] != y[i - end]);
        crate::bytes::lemma_le_bytes_of_value(x);
        crate::bytes::lemma_le_bytes_of_value(y);
    }
}

/// A manifest that fits one block decodes to itself.
pub proof fn law_encode_decode(v: ManV, nlevels: nat, tables: nat, key_max: nat, block: nat)
    requires
        fits_shape(v, nlevels, tables, key_max),
        key_max <= 0xFFFF,
        nlevels <= u32::MAX,
        nlevels * tables <= u32::MAX,
        block > BLOCK_FRAME,
        copy_blocks(v, block) == 1,
        encodable(v, block),
    ensures
        block_parse(block_bytes(v, 0, block), nlevels, tables, key_max) == Some(v),
{
    let body = body_bytes(v);
    let chunk = block - BLOCK_FRAME;
    lemma_fixed_len(v);
    lemma_chunks(body.len() as int, chunk);
    assert(0 * chunk == 0) by (nonlinear_arith);
    assert(1 * chunk == chunk) by (nonlinear_arith);
    assert(chunk_of(body, 0, chunk) =~= body);
    law_block_roundtrip(v.seq, 0, 1, body, block);
    law_body_roundtrip(v, nlevels, tables, key_max);
}

/// A manifest block's parsed header.
pub(crate) struct BlockHead {
    pub(crate) seq: u64,
    pub(crate) index: usize,
    pub(crate) count: usize,
    pub(crate) len: usize,
}

/// Validates one manifest block (magic, chunk length, CRC) and returns its
/// header.
pub(crate) fn check_block(buf: &[u8]) -> (r: Option<BlockHead>)
    ensures
        match head_of(buf@) {
            None => r is None,
            Some(h) => r matches Some(g) && {
                &&& g.seq == h.seq
                &&& g.index == h.index
                &&& g.count == h.count
                &&& g.len == h.len
                &&& g.index <= 0xFFFF
                &&& g.count <= 0xFFFF
                &&& BLOCK_FRAME + g.len <= buf@.len()
            },
        },
{
    proof {
        lemma_pow256();
    }
    let n: usize = buf.len();
    if n < BLOCK_FRAME {
        return None;
    }
    if load_le(buf, 0, 8) != MANIFEST_MAGIC {
        return None;
    }
    let seq: u64 = load_le(buf, 8, 8);
    let index: u64 = load_le(buf, 16, 2);
    let count: u64 = load_le(buf, 18, 2);
    let len64: u64 = load_le(buf, 20, 4);
    if len64 > (n - BLOCK_FRAME) as u64 {
        return None;
    }
    let len: usize = len64 as usize;
    let end: usize = BLOCK_HEADER + len;
    let stored: u64 = load_le(buf, end, 4);
    if stored != crc32(&buf[0..end]) as u64 {
        return None;
    }
    Some(BlockHead { seq, index: index as usize, count: count as usize, len })
}

// ---------------------------------------------------------------------
// Copies on a device.

/// The newest intact copy among the first `k`: its sequence, first block and
/// block count. Of copies with the same sequence the earliest counts.
pub open spec fn best_copy(
    c: Map<u64, Seq<u8>>,
    layout: ManifestLayout,
    stride: int,
    chunk: int,
    k: nat,
) -> Option<(u64, u64, nat)>
    decreases k,
{
    if k == 0 {
        None
    } else {
        let b = best_copy(c, layout, stride, chunk, (k - 1) as nat);
        let start = layout.start_of(k - 1, stride) as u64;
        match probe_of(c, start, stride, chunk) {
            ProbeV::Intact { seq, count } => if b is None || seq > (b->0).0 {
                Some((seq, start, count))
            } else {
                b
            },
            _ => b,
        }
    }
}

/// One of the first `k` copies was never written.
pub open spec fn any_blank(
    c: Map<u64, Seq<u8>>,
    layout: ManifestLayout,
    stride: int,
    chunk: int,
    k: nat,
) -> bool {
    exists|j: int|
        0 <= j < k && #[trigger] probe_of(
            c,
            layout.start_of(j, stride) as u64,
            stride,
            chunk,
        ) is Blank
}

/// What a recovery finds.
pub enum Recovery {
    /// The newest intact copy's manifest.
    Found(ManV),
    /// No intact copy, but one that was never written.
    Fresh,
    /// Neither an intact nor a blank copy, or a copy whose body does not
    /// parse.
    Corrupt,
}

/// What a recovery of these blocks finds.
pub open spec fn recovery_of(
    c: Map<u64, Seq<u8>>,
    layout: ManifestLayout,
    nlevels: usize,
    tables: usize,
    key_max: usize,
    block: nat,
) -> Recovery {
    let stride = max_blocks_of(nlevels, tables, key_max, block);
    let chunk = block - BLOCK_FRAME;
    let n = layout.n() as nat;
    match best_copy(c, layout, stride, chunk, n) {
        None => if any_blank(c, layout, stride, chunk, n) {
            Recovery::Fresh
        } else {
            Recovery::Corrupt
        },
        Some((seq, start, count)) => {
            let last = head_of(c[(start + count - 1) as u64]);
            if count > 1 && last->0.len == 0 {
                Recovery::Corrupt
            } else {
                match body_parse(
                    copy_body(c, start, count),
                    seq,
                    nlevels as nat,
                    tables as nat,
                    key_max as nat,
                ) {
                    None => Recovery::Corrupt,
                    Some(v) => Recovery::Found(v),
                }
            }
        },
    }
}

/// Blocks hold the copy of `v` from `start` on.
pub open spec fn holds_copy(c: Map<u64, Seq<u8>>, v: ManV, start: int, block: nat) -> bool {
    forall|i: int|
        0 <= i < copy_blocks(v, block) ==> c[(start + i) as u64] == #[trigger] block_bytes(
            v,
            i,
            block,
        )
}

/// A written copy is intact, and its body is the manifest's.
pub proof fn lemma_copy_reads_back(c: Map<u64, Seq<u8>>, v: ManV, start: u64, stride: int, block: nat)
    requires
        block > BLOCK_FRAME,
        encodable(v, block),
        copy_blocks(v, block) <= stride,
        start + stride <= u64::MAX,
        holds_copy(c, v, start as int, block),
    ensures
        probe_of(c, start, stride, block - BLOCK_FRAME) == (ProbeV::Intact {
            seq: v.seq,
            count: copy_blocks(v, block) as nat,
        }),
        copy_body(c, start, copy_blocks(v, block) as nat) == body_bytes(v),
        copy_blocks(v, block) > 1 ==> ({
            let last = head_of(c[(start + copy_blocks(v, block) - 1) as u64]);
            last is Some && last->0.len > 0
        }),
{
    let body = body_bytes(v);
    let len = body.len() as int;
    let chunk = block - BLOCK_FRAME;
    let count = copy_blocks(v, block);
    lemma_fixed_len(v);
    lemma_chunks(len, chunk);
    assert forall|i: int| 0 <= i < count implies ({
        let b = #[trigger] c[(start + i) as u64];
        let piece = chunk_of(body, i, chunk);
        &&& b == block_bytes(v, i, block)
        &&& head_of(b) == Some(
            HeadV { seq: v.seq, index: i as nat, count: count as nat, len: piece.len() },
        )
        &&& b.subrange(24, 24 + piece.len() as int) == piece
        &&& (i + 1 < count ==> piece.len() == chunk)
        &&& piece.len() > 0
        &&& 0 <= i * chunk < len
    }) by {
        lemma_chunk_len(body, i, chunk);
        assert(c[(start as int + i) as u64] == block_bytes(v, i, block));
        law_block_roundtrip(v.seq, i as nat, count as nat, chunk_of(body, i, chunk), block);
    }
    let h = HeadV {
        seq: v.seq,
        index: 0,
        count: count as nat,
        len: chunk_of(body, 0, chunk).len(),
    };
    let b0 = c[(start + 0) as u64];
    assert(b0 == c[start]);
    assert(head_of(c[start]) == Some(h));
    assert(!all_zeros(b0) && !all_ones(b0)) by {
        lemma_magic_byte(v, block);
    }
    assert forall|i: int| 1 <= i < h.count implies #[trigger] block_agrees(c, start, h, i, chunk) by {
        assert(c[(start + i) as u64] == block_bytes(v, i, block));
    }
    lemma_copy_body(c, v, start, block, count as nat);
    lemma_take_clamp(body, count, chunk);
    assert(c[(start + (count - 1)) as u64] == block_bytes(v, count - 1, block));
}

proof fn lemma_take_clamp(body: Seq<u8>, n: int, chunk: int)
    requires
        n * chunk >= body.len(),
    ensures
        body.take(if n * chunk < body.len() {
            n * chunk
        } else {
            body.len() as int
        }) == body,
{
    assert(body.take(body.len() as int) =~= body);
}

proof fn lemma_chunk_len(body: Seq<u8>, i: int, chunk: int)
    requires
        chunk > 0,
        body.len() > 0,
        0 <= i < chunks_for(body.len() as int, chunk),
    ensures
        0 <= i * chunk < body.len(),
        0 < chunk_of(body, i, chunk).len() <= chunk,
        chunk_of(body, i, chunk).len() <= body.len(),
        i + 1 < chunks_for(body.len() as int, chunk) ==> chunk_of(body, i, chunk).len() == chunk,
{
    let n = chunks_for(body.len() as int, chunk);
    lemma_chunks(body.len() as int, chunk);
    assert(0 <= i * chunk <= (n - 1) * chunk) by (nonlinear_arith)
        requires
            0 <= i <= n - 1,
            chunk > 0,
    ;
    if i + 1 < n {
        assert(i * chunk + chunk <= (n - 1) * chunk) by (nonlinear_arith)
            requires
                0 <= i,
                i + 1 <= n - 1,
                chunk > 0,
        ;
    }
}

/// A block of a copy starts with the magic, so it is neither erased nor
/// zeroed.
proof fn lemma_magic_byte(v: ManV, block: nat)
    requires
        block > BLOCK_FRAME,
        encodable(v, block),
    ensures
        !all_zeros(block_bytes(v, 0, block)),
        !all_ones(block_bytes(v, 0, block)),
{
    broadcast use lemma_le_bytes_len;

    let b = block_bytes(v, 0, block);
    reveal(framed_bytes);
    let m = le_bytes(MANIFEST_MAGIC as nat, 8);
    assert(b.subrange(0, 8) =~= m);
    assert(m[0] == 0x68) by {
        reveal_with_fuel(le_bytes, 2);
    }
    assert(b[0] == b.subrange(0, 8)[0]);
}

proof fn lemma_copy_body(c: Map<u64, Seq<u8>>, v: ManV, start: u64, block: nat, n: nat)
    requires
        block > BLOCK_FRAME,
        encodable(v, block),
        n <= copy_blocks(v, block),
        start + copy_blocks(v, block) <= u64::MAX,
        holds_copy(c, v, start as int, block),
    ensures
        copy_body(c, start, n) == body_bytes(v).take(
            if n * (block - BLOCK_FRAME) < body_bytes(v).len() {
                n * (block - BLOCK_FRAME)
            } else {
                body_bytes(v).len() as int
            },
        ),
    decreases n,
{
    let body = body_bytes(v);
    let chunk = block - BLOCK_FRAME;
    let count = copy_blocks(v, block);
    lemma_fixed_len(v);
    if n == 0 {
        assert(0 * chunk == 0) by (nonlinear_arith);
        assert(body.take(0) =~= Seq::<u8>::empty());
    } else {
        let i = n - 1;
        lemma_copy_body(c, v, start, block, i as nat);
        lemma_chunk_len(body, i, chunk);
        let piece = chunk_of(body, i, chunk);
        assert(c[(start as int + i) as u64] == block_bytes(v, i, block));
        law_block_roundtrip(v.seq, i as nat, count as nat, piece, block);
        assert(n * chunk == i * chunk + chunk) by (nonlinear_arith)
            requires
                n == i + 1,
        ;
        let hi = if i * chunk + chunk < body.len() {
            i * chunk + chunk
        } else {
            body.len() as int
        };
        assert(body.take(i * chunk) + piece =~= body.take(hi));
    }
}

/// A recovery after a commit finds the committed manifest: its copy is whole
/// and no other intact copy is as new.
pub proof fn law_commit_then_recover(
    c: Map<u64, Seq<u8>>,
    layout: ManifestLayout,
    v: ManV,
    k: int,
    nlevels: usize,
    tables: usize,
    key_max: usize,
    block: nat,
)
    requires
        manifest_shape(nlevels, tables, key_max),
        block > BLOCK_FRAME,
        fits_shape(v, nlevels as nat, tables as nat, key_max as nat),
        encodable(v, block),
        layout.fits(max_blocks_of(nlevels, tables, key_max, block)),
        0 <= k < layout.n(),
        holds_copy(
            c,
            v,
            layout.start_of(k, max_blocks_of(nlevels, tables, key_max, block)),
            block,
        ),
        forall|j: int|
            0 <= j < layout.n() && j != k ==> (#[trigger] probe_of(
                    c,
                    layout.start_of(
                        j,
                        max_blocks_of(nlevels, tables, key_max, block),
                    ) as u64,
                    max_blocks_of(nlevels, tables, key_max, block),
                    block - BLOCK_FRAME,
                ) matches ProbeV::Intact { seq, .. } ==> seq < v.seq),
    ensures
        recovery_of(c, layout, nlevels, tables, key_max, block) == Recovery::Found(v),
{
    let stride = max_blocks_of(nlevels, tables, key_max, block);
    let chunk = block - BLOCK_FRAME;
    let start = layout.start_of(k, stride);
    lemma_stride(v, nlevels, tables, key_max, block);
    layout.lemma_start_nonneg(k, stride);
    assert(start + stride <= u64::MAX);
    lemma_copy_reads_back(c, v, start as u64, stride, block);
    lemma_best_is(
        c,
        layout,
        stride,
        chunk,
        layout.n() as nat,
        k,
        v.seq,
        copy_blocks(v, block) as nat,
    );
    law_body_roundtrip(v, nlevels as nat, tables as nat, key_max as nat);
}

/// A copy of any manifest of a shape fits the shape's stride.
pub proof fn lemma_stride(v: ManV, nlevels: usize, tables: usize, key_max: usize, block: nat)
    requires
        manifest_shape(nlevels, tables, key_max),
        block > BLOCK_FRAME,
        fits_shape(v, nlevels as nat, tables as nat, key_max as nat),
    ensures
        1 <= copy_blocks(v, block) <= max_blocks_of(nlevels, tables, key_max, block),
{
    let ls = v.levels;
    lemma_fixed_len(v);
    lemma_levels_len(ls, key_max as nat);
    assert(total_tables(ls) * (44 + 2 * key_max) <= (nlevels * tables) * (44 + 2 * key_max))
        by (nonlinear_arith)
        requires
            0 <= total_tables(ls) <= nlevels * tables,
            key_max >= 0,
    ;
    let len = body_bytes(v).len() as int;
    lemma_chunks(len, block - BLOCK_FRAME);
    lemma_chunks_mono(
        len,
        max_body(nlevels as int, tables as int, key_max as int),
        block - BLOCK_FRAME,
    );
}

/// The one intact copy with the highest sequence is the best of all.
pub proof fn lemma_best_is(
    c: Map<u64, Seq<u8>>,
    layout: ManifestLayout,
    stride: int,
    chunk: int,
    n: nat,
    k: int,
    top: u64,
    count: nat,
)
    requires
        0 <= k,
        probe_of(c, layout.start_of(k, stride) as u64, stride, chunk) == (ProbeV::Intact {
            seq: top,
            count,
        }),
        forall|j: int|
            0 <= j < n && j != k ==> (#[trigger] probe_of(
                c,
                layout.start_of(j, stride) as u64,
                stride,
                chunk,
            ) matches ProbeV::Intact { seq, .. } ==> if j < k {
                seq < top
            } else {
                seq <= top
            }),
    ensures
        k < n ==> best_copy(c, layout, stride, chunk, n) == Some(
            (top, layout.start_of(k, stride) as u64, count),
        ),
        k >= n ==> (best_copy(c, layout, stride, chunk, n) matches Some(b) ==> b.0 < top),
    decreases n,
{
    if n > 0 {
        lemma_best_is(c, layout, stride, chunk, (n - 1) as nat, k, top, count);
        let j = n - 1;
        let p = probe_of(c, layout.start_of(j, stride) as u64, stride, chunk);
    }
}

/// Copy `k` is not the one that a recovery reads: some other copy is the
/// newest intact one or, without any, was never written.
pub open spec fn spare_copy(
    c: Map<u64, Seq<u8>>,
    layout: ManifestLayout,
    stride: int,
    chunk: int,
    k: int,
) -> bool {
    match best_copy(c, layout, stride, chunk, layout.n() as nat) {
        Some(b) => b.1 != layout.start_of(k, stride),
        None => exists|j: int|
            0 <= j < layout.n() && j != k && #[trigger] probe_of(
                c,
                layout.start_of(j, stride) as u64,
                stride,
                chunk,
            ) is Blank,
    }
}

/// Copy `k` does not pass for a newer one than the newest intact copy of
/// `before`: it is not intact, or the older copy that stood there still is.
pub open spec fn not_newer(
    before: Map<u64, Seq<u8>>,
    after: Map<u64, Seq<u8>>,
    layout: ManifestLayout,
    stride: int,
    chunk: int,
    k: int,
) -> bool {
    probe_of(after, layout.start_of(k, stride) as u64, stride, chunk) matches ProbeV::Intact {
        seq,
        ..
    } ==> {
        &&& best_copy(before, layout, stride, chunk, layout.n() as nat) is Some
        &&& seq < (best_copy(before, layout, stride, chunk, layout.n() as nat)->0).0
    }
}

/// A commit torn anywhere leaves the previous state recoverable: when only
/// blocks of one copy changed, and that copy neither was nor became the
/// newest intact one, a recovery finds what it found before. The copy may be
/// damaged, or still be the intact older one, when the tear came before its
/// first block. Before the first commit, another copy that was never written
/// takes the newest one's place.
pub proof fn law_torn_commit_keeps_previous(
    before: Map<u64, Seq<u8>>,
    after: Map<u64, Seq<u8>>,
    layout: ManifestLayout,
    k: int,
    nlevels: usize,
    tables: usize,
    key_max: usize,
    block: nat,
)
    requires
        manifest_shape(nlevels, tables, key_max),
        block > BLOCK_FRAME,
        layout.fits(max_blocks_of(nlevels, tables, key_max, block)),
        0 <= k < layout.n(),
        ({
            let stride = max_blocks_of(nlevels, tables, key_max, block);
            let chunk = block - BLOCK_FRAME;
            let start = layout.start_of(k, stride);
            &&& same_outside(before, after, start, start + stride)
            &&& copies_disjoint(layout, stride)
            &&& not_newer(before, after, layout, stride, chunk, k)
            &&& spare_copy(before, layout, stride, chunk, k)
        }),
    ensures
        recovery_of(after, layout, nlevels, tables, key_max, block) == recovery_of(
            before,
            layout,
            nlevels,
            tables,
            key_max,
            block,
        ),
{
    let stride = max_blocks_of(nlevels, tables, key_max, block);
    let chunk = block - BLOCK_FRAME;
    let n = layout.n() as nat;
    let start = layout.start_of(k, stride);
    lemma_chunks_stride(nlevels, tables, key_max, block);
    layout.lemma_start_nonneg(k, stride);
    assert forall|j: int| 0 <= j < n && j != k implies #[trigger] probe_of(
        after,
        layout.start_of(j, stride) as u64,
        stride,
        chunk,
    ) == probe_of(before, layout.start_of(j, stride) as u64, stride, chunk) by {
        layout.lemma_start_nonneg(j, stride);
        assert(layout.start_of(j, stride) + stride <= u64::MAX);
        lemma_probe_frame(before, after, layout.start_of(j, stride) as u64, stride, chunk, start);
    }
    lemma_best_torn(before, after, layout, stride, chunk, k);
    let b = best_copy(before, layout, stride, chunk, n);
    if b is None {
        let j = choose|j: int|
            0 <= j < n && j != k && #[trigger] probe_of(
                before,
                layout.start_of(j, stride) as u64,
                stride,
                chunk,
            ) is Blank;
        assert(probe_of(after, layout.start_of(j, stride) as u64, stride, chunk) is Blank);
    } else {
        lemma_best_from(before, layout, stride, chunk, n);
        let j = choose|j: int|
            0 <= j < n && (b->0).1 == #[trigger] layout.start_of(j, stride) as u64 && probe_of(
                before,
                layout.start_of(j, stride) as u64,
                stride,
                chunk,
            ) == (ProbeV::Intact { seq: (b->0).0, count: (b->0).2 });
        layout.lemma_start_nonneg(j, stride);
        assert(layout.start_of(j, stride) + stride <= u64::MAX);
        assert(j != k);
        lemma_body_frame(
            before,
            after,
            layout.start_of(j, stride) as u64,
            stride,
            start,
            (b->0).2,
        );
        let s0 = layout.start_of(j, stride);
        assert(after[(s0 + (b->0).2 - 1) as u64] == before[(s0 + (b->0).2 - 1) as u64]);
    }
}

/// Any two copies of a layout share no block.
pub open spec fn copies_disjoint(layout: ManifestLayout, stride: int) -> bool {
    forall|i: int, j: int|
        0 <= i < layout.n() && 0 <= j < layout.n() && i != j ==> #[trigger] layout.start_of(
            i,
            stride,
        ) + stride <= #[trigger] layout.start_of(j, stride) || layout.start_of(j, stride) + stride
            <= layout.start_of(i, stride)
}

proof fn lemma_chunks_stride(nlevels: usize, tables: usize, key_max: usize, block: nat)
    requires
        manifest_shape(nlevels, tables, key_max),
        block > BLOCK_FRAME,
    ensures
        max_blocks_of(nlevels, tables, key_max, block) >= 1,
{
    assert((nlevels * tables) * (44 + 2 * key_max) >= 0) by (nonlinear_arith)
        requires
            nlevels >= 0,
            tables >= 0,
            key_max >= 0,
    ;
    lemma_chunks(
        max_body(nlevels as int, tables as int, key_max as int),
        block - BLOCK_FRAME,
    );
}

/// A copy whose blocks stay is found as it was.
pub proof fn lemma_probe_same(
    before: Map<u64, Seq<u8>>,
    after: Map<u64, Seq<u8>>,
    start: u64,
    stride: int,
    chunk: int,
)
    requires
        stride >= 1,
        start + stride <= u64::MAX,
        same_blocks(before, after, start as int, start + stride),
    ensures
        probe_of(after, start, stride, chunk) == probe_of(before, start, stride, chunk),
{
    assert(after[start] == before[start]);
    match head_of(before[start]) {
        Some(h) => {
            if h.count <= stride {
                assert forall|i: int| 1 <= i < h.count implies #[trigger] block_agrees(
                    after,
                    start,
                    h,
                    i,
                    chunk,
                ) == block_agrees(before, start, h, i, chunk) by {
                    assert(after[(start + i) as u64] == before[(start + i) as u64]);
                }
                let pa = forall|i: int|
                    1 <= i < h.count ==> #[trigger] block_agrees(after, start, h, i, chunk);
                let pb = forall|i: int|
                    1 <= i < h.count ==> #[trigger] block_agrees(before, start, h, i, chunk);
                if pb {
                    assert forall|i: int| 1 <= i < h.count implies #[trigger] block_agrees(
                        after,
                        start,
                        h,
                        i,
                        chunk,
                    ) by {
                        assert(block_agrees(before, start, h, i, chunk));
                    }
                } else {
                    let i = choose|i: int|
                        1 <= i < h.count && !(#[trigger] block_agrees(before, start, h, i, chunk));
                    assert(!block_agrees(after, start, h, i, chunk));
                }
            }
        },
        None => {},
    }
}

proof fn lemma_body_same(
    before: Map<u64, Seq<u8>>,
    after: Map<u64, Seq<u8>>,
    start: u64,
    stride: int,
    n: nat,
)
    requires
        n <= stride,
        start + stride <= u64::MAX,
        same_blocks(before, after, start as int, start + stride),
    ensures
        copy_body(after, start, n) == copy_body(before, start, n),
    decreases n,
{
    if n > 0 {
        lemma_body_same(before, after, start, stride, (n - 1) as nat);
        assert(after[(start + n - 1) as u64] == before[(start + n - 1) as u64]);
    }
}

/// Copies whose blocks all stay are recovered alike.
pub proof fn law_recovery_reads_copies_only(
    before: Map<u64, Seq<u8>>,
    after: Map<u64, Seq<u8>>,
    layout: ManifestLayout,
    nlevels: usize,
    tables: usize,
    key_max: usize,
    block: nat,
)
    requires
        manifest_shape(nlevels, tables, key_max),
        block > BLOCK_FRAME,
        layout.fits(max_blocks_of(nlevels, tables, key_max, block)),
        forall|j: int|
            0 <= j < layout.n() ==> same_blocks(
                before,
                after,
                #[trigger] layout.start_of(j, max_blocks_of(nlevels, tables, key_max, block)),
                layout.start_of(j, max_blocks_of(nlevels, tables, key_max, block)) + max_blocks_of(
                    nlevels,
                    tables,
                    key_max,
                    block,
                ),
            ),
    ensures
        recovery_of(after, layout, nlevels, tables, key_max, block) == recovery_of(
            before,
            layout,
            nlevels,
            tables,
            key_max,
            block,
        ),
{
    let stride = max_blocks_of(nlevels, tables, key_max, block);
    let chunk = block - BLOCK_FRAME;
    let n = layout.n() as nat;
    lemma_chunks_stride(nlevels, tables, key_max, block);
    assert forall|j: int| 0 <= j < n implies #[trigger] probe_of(
        after,
        layout.start_of(j, stride) as u64,
        stride,
        chunk,
    ) == probe_of(before, layout.start_of(j, stride) as u64, stride, chunk) by {
        layout.lemma_start_nonneg(j, stride);
        lemma_probe_same(before, after, layout.start_of(j, stride) as u64, stride, chunk);
    }
    lemma_best_same(before, after, layout, stride, chunk, n);
    assert(any_blank(after, layout, stride, chunk, n) == any_blank(before, layout, stride, chunk, n))
        by {
        if any_blank(before, layout, stride, chunk, n) {
            let j = choose|j: int|
                0 <= j < n && #[trigger] probe_of(
                    before,
                    layout.start_of(j, stride) as u64,
                    stride,
                    chunk,
                ) is Blank;
            assert(probe_of(after, layout.start_of(j, stride) as u64, stride, chunk) is Blank);
        }
        if any_blank(after, layout, stride, chunk, n) {
            let j = choose|j: int|
                0 <= j < n && #[trigger] probe_of(
                    after,
                    layout.start_of(j, stride) as u64,
                    stride,
                    chunk,
                ) is Blank;
            assert(probe_of(before, layout.start_of(j, stride) as u64, stride, chunk) is Blank);
        }
    }
    lemma_best_from(before, layout, stride, chunk, n);
    match best_copy(before, layout, stride, chunk, n) {
        Some((seq, start, count)) => {
            let j = choose|j: int|
                0 <= j < n && start == #[trigger] layout.start_of(j, stride) as u64 && probe_of(
                    before,
                    layout.start_of(j, stride) as u64,
                    stride,
                    chunk,
                ) == (ProbeV::Intact { seq, count });
            layout.lemma_start_nonneg(j, stride);
            lemma_body_same(before, after, start, stride, count);
            assert(after[(start + count - 1) as u64] == before[(start + count - 1) as u64]);
        },
        None => {},
    }
}

proof fn lemma_best_same(
    before: Map<u64, Seq<u8>>,
    after: Map<u64, Seq<u8>>,
    layout: ManifestLayout,
    stride: int,
    chunk: int,
    n: nat,
)
    requires
        forall|j: int|
            0 <= j < n ==> #[trigger] probe_of(
                after,
                layout.start_of(j, stride) as u64,
                stride,
                chunk,
            ) == probe_of(before, layout.start_of(j, stride) as u64, stride, chunk),
    ensures
        best_copy(after, layout, stride, chunk, n) == best_copy(before, layout, stride, chunk, n),
    decreases n,
{
    if n > 0 {
        lemma_best_same(before, after, layout, stride, chunk, (n - 1) as nat);
        let j = n - 1;
        assert(probe_of(after, layout.start_of(j, stride) as u64, stride, chunk) == probe_of(
            before,
            layout.start_of(j, stride) as u64,
            stride,
            chunk,
        ));
    }
}

proof fn lemma_probe_frame(
    before: Map<u64, Seq<u8>>,
    after: Map<u64, Seq<u8>>,
    start: u64,
    stride: int,
    chunk: int,
    other: int,
)
    requires
        stride >= 1,
        start + stride <= u64::MAX,
        same_outside(before, after, other, other + stride),
        start + stride <= other || other + stride <= start,
    ensures
        probe_of(after, start, stride, chunk) == probe_of(before, start, stride, chunk),
{
    lemma_probe_same(before, after, start, stride, chunk);
}

proof fn lemma_body_frame(
    before: Map<u64, Seq<u8>>,
    after: Map<u64, Seq<u8>>,
    start: u64,
    stride: int,
    other: int,
    n: nat,
)
    requires
        n <= stride,
        start + stride <= u64::MAX,
        same_outside(before, after, other, other + stride),
        start + stride <= other || other + stride <= start,
    ensures
        copy_body(after, start, n) == copy_body(before, start, n),
{
    lemma_body_same(before, after, start, stride, n);
}

/// The best copy is one of those looked at.
proof fn lemma_best_from(
    c: Map<u64, Seq<u8>>,
    layout: ManifestLayout,
    stride: int,
    chunk: int,
    n: nat,
)
    ensures
        best_copy(c, layout, stride, chunk, n) matches Some(b) ==> 1 <= b.2 <= stride && exists|
            j: int,
        |
            0 <= j < n && b.1 == #[trigger] layout.start_of(j, stride) as u64 && probe_of(
                c,
                layout.start_of(j, stride) as u64,
                stride,
                chunk,
            ) == (ProbeV::Intact { seq: b.0, count: b.2 }),
    decreases n,
{
    if n > 0 {
        lemma_best_from(c, layout, stride, chunk, (n - 1) as nat);
        let before = best_copy(c, layout, stride, chunk, (n - 1) as nat);
        let b = best_copy(c, layout, stride, chunk, n);
        if b is Some {
            if b == before {
                let j = choose|j: int|
                    0 <= j < n - 1 && (b->0).1 == #[trigger] layout.start_of(j, stride) as u64
                        && probe_of(
                        c,
                        layout.start_of(j, stride) as u64,
                        stride,
                        chunk,
                    ) == (ProbeV::Intact { seq: (b->0).0, count: (b->0).2 });
                assert(0 <= j < n && (b->0).1 == layout.start_of(j, stride) as u64);
            } else {
                let j = n - 1;
                assert(0 <= j < n && (b->0).1 == layout.start_of(j, stride) as u64);
            }
        }
    }
}

/// The best copy is the first of the newest intact ones; without one, no copy
/// is intact.
proof fn lemma_best_first(
    c: Map<u64, Seq<u8>>,
    layout: ManifestLayout,
    stride: int,
    chunk: int,
    n: nat,
) -> (k: int)
    ensures
        match best_copy(c, layout, stride, chunk, n) {
            None => forall|j: int|
                0 <= j < n ==> !(#[trigger] probe_of(
                    c,
                    layout.start_of(j, stride) as u64,
                    stride,
                    chunk,
                ) is Intact),
            Some(b) => {
                &&& 0 <= k < n
                &&& b.1 == layout.start_of(k, stride) as u64
                &&& probe_of(c, b.1, stride, chunk) == (ProbeV::Intact { seq: b.0, count: b.2 })
                &&& forall|j: int|
                    0 <= j < n && j != k ==> (#[trigger] probe_of(
                        c,
                        layout.start_of(j, stride) as u64,
                        stride,
                        chunk,
                    ) matches ProbeV::Intact { seq, .. } ==> if j < k {
                        seq < b.0
                    } else {
                        seq <= b.0
                    })
            },
        },
    decreases n,
{
    if n == 0 {
        0
    } else {
        let k = lemma_best_first(c, layout, stride, chunk, (n - 1) as nat);
        if best_copy(c, layout, stride, chunk, n) == best_copy(
            c,
            layout,
            stride,
            chunk,
            (n - 1) as nat,
        ) {
            k
        } else {
            n - 1
        }
    }
}

proof fn lemma_best_torn(
    before: Map<u64, Seq<u8>>,
    after: Map<u64, Seq<u8>>,
    layout: ManifestLayout,
    stride: int,
    chunk: int,
    k: int,
)
    requires
        0 <= k < layout.n(),
        not_newer(before, after, layout, stride, chunk, k),
        best_copy(before, layout, stride, chunk, layout.n() as nat) matches Some(b) ==> b.1
            != layout.start_of(k, stride) as u64,
        forall|j: int|
            0 <= j < layout.n() && j != k ==> #[trigger] probe_of(
                after,
                layout.start_of(j, stride) as u64,
                stride,
                chunk,
            ) == probe_of(before, layout.start_of(j, stride) as u64, stride, chunk),
    ensures
        best_copy(after, layout, stride, chunk, layout.n() as nat) == best_copy(
            before,
            layout,
            stride,
            chunk,
            layout.n() as nat,
        ),
{
    let n = layout.n() as nat;
    let i = lemma_best_first(before, layout, stride, chunk, n);
    match best_copy(before, layout, stride, chunk, n) {
        Some(b) => {
            assert(i != k);
            assert forall|j: int| 0 <= j < n && j != i implies (#[trigger] probe_of(
                after,
                layout.start_of(j, stride) as u64,
                stride,
                chunk,
            ) matches ProbeV::Intact { seq, .. } ==> if j < i {
                seq < b.0
            } else {
                seq <= b.0
            }) by {
                if j != k {
                    assert(probe_of(after, layout.start_of(j, stride) as u64, stride, chunk)
                        == probe_of(before, layout.start_of(j, stride) as u64, stride, chunk));
                }
            }
            assert(probe_of(after, layout.start_of(i, stride) as u64, stride, chunk) == probe_of(
                before,
                layout.start_of(i, stride) as u64,
                stride,
                chunk,
            ));
            lemma_best_is(after, layout, stride, chunk, n, i, b.0, b.2);
        },
        None => {
            let j = lemma_best_first(after, layout, stride, chunk, n);
            if best_copy(after, layout, stride, chunk, n) is Some && j != k {
                assert(probe_of(after, layout.start_of(j, stride) as u64, stride, chunk)
                    == probe_of(before, layout.start_of(j, stride) as u64, stride, chunk));
            }
        },
    }
}

/// A body starts with its fixed part.
proof fn lemma_fixed_first(s: Seq<u8>, nlevels: nat)
    ensures
        take_fixed(s, nlevels) is Some ==> s.len() > 0,
{
}

/// The body of a one-block copy is its chunk.
proof fn lemma_one_chunk(c: Map<u64, Seq<u8>>, start: u64)
    ensures
        head_of(c[start]) is Some ==> copy_body(c, start, 1).len() == head_of(c[start])->0.len,
{
    reveal_with_fuel(copy_body, 2);
    assert((start + 1 - 1) as u64 == start);
}

/// What [`Manifest::probe_copy`] found.
enum Probe {
    /// Every block intact and agreeing.
    Intact { seq: u64, count: usize },
    /// Never written.
    Blank,
    /// Written but not intact (torn or damaged).
    Corrupt,
}

/// Every byte is `0xFF`.
fn all_one(bytes: &[u8]) -> (r: bool)
    ensures
        r == all_ones(bytes@),
{
    let n: usize = bytes.len();
    let mut i: usize = 0;
    while i < n
        invariant
            n == bytes@.len(),
            i <= n,
            forall|k: int| 0 <= k < i ==> #[trigger] bytes@[k] == 0xFF,
        decreases n - i,
    {
        if bytes[i] != 0xFF {
            return false;
        }
        i = i + 1;
    }
    true
}

impl<const LEVELS: usize, const TABLES: usize, const KEY_MAX: usize> Manifest<
    LEVELS,
    TABLES,
    KEY_MAX,
> {
    /// Checks one copy: blank, intact (with its `seq` and block count), or
    /// corrupt.
    fn probe_copy<D: BlockDevice, const BLOCK: usize>(
        device: &D,
        scratch: &mut [u8; BLOCK],
        start: u64,
        stride: u64,
    ) -> (r: Result<Probe, Error<D::Error>>)
        requires
            D::BLOCK == BLOCK,
            BLOCK > BLOCK_FRAME,
            start + stride <= u64::MAX,
        ensures
            match r {
                Ok(Probe::Intact { seq, count }) => probe_of(
                    device.content(),
                    start,
                    stride as int,
                    BLOCK - BLOCK_FRAME,
                ) == (ProbeV::Intact { seq, count: count as nat }),
                Ok(Probe::Blank) => probe_of(
                    device.content(),
                    start,
                    stride as int,
                    BLOCK - BLOCK_FRAME,
                ) == ProbeV::Blank,
                Ok(Probe::Corrupt) => probe_of(
                    device.content(),
                    start,
                    stride as int,
                    BLOCK - BLOCK_FRAME,
                ) == ProbeV::Corrupt,
                Err(e) => e is Device,
            },
    {
        let ghost c = device.content();
        match device.read_block(start, scratch) {
            Ok(()) => {},
            Err(e) => {
                return Err(Error::Device(e));
            },
        }
        if all_zero(scratch) || all_one(scratch) {
            return Ok(Probe::Blank);
        }
        let head: BlockHead = match check_block(scratch) {
            Some(h) => h,
            None => {
                return Ok(Probe::Corrupt);
            },
        };
        if head.index != 0 || head.count == 0 || head.count as u64 > stride {
            return Ok(Probe::Corrupt);
        }
        let chunk: usize = BLOCK - BLOCK_FRAME;
        if head.count > 1 && head.len != chunk {
            return Ok(Probe::Corrupt);
        }
        let ghost h = head_of(c[start])->0;
        let mut i: usize = 1;
        while i < head.count
            invariant
                D::BLOCK == BLOCK,
                BLOCK > BLOCK_FRAME,
                chunk == BLOCK - BLOCK_FRAME,
                start + stride <= u64::MAX,
                c == device.content(),
                head_of(c[start]) == Some(h),
                !all_zeros(c[start]),
                !all_ones(c[start]),
                h.index == 0,
                h.seq == head.seq,
                h.count == head.count,
                0 < h.count <= stride,
                h.count > 1 ==> h.len == chunk,
                1 <= i <= head.count,
                forall|j: int| 1 <= j < i ==> #[trigger] block_agrees(c, start, h, j, chunk as int),
            decreases head.count - i,
        {
            match device.read_block(start + i as u64, scratch) {
                Ok(()) => {},
                Err(e) => {
                    return Err(Error::Device(e));
                },
            }
            let g: BlockHead = match check_block(scratch) {
                Some(g) => g,
                None => {
                    assert(!block_agrees(c, start, h, i as int, chunk as int));
                    return Ok(Probe::Corrupt);
                },
            };
            let last: bool = i + 1 == head.count;
            if g.seq != head.seq || g.index != i || g.count != head.count || (!last && g.len
                != chunk) {
                assert(!block_agrees(c, start, h, i as int, chunk as int));
                return Ok(Probe::Corrupt);
            }
            assert(block_agrees(c, start, h, i as int, chunk as int));
            i = i + 1;
        }
        Ok(Probe::Intact { seq: head.seq, count: head.count })
    }

    /// Recovers the two-copy manifest at blocks `a` and `b`: shorthand for
    /// [`recover_from`](Self::recover_from) with [`ManifestLayout::pair`].
    ///
    /// # Errors
    ///
    /// As [`recover_from`](Self::recover_from).
    pub fn recover<D: BlockDevice, const BLOCK: usize>(
        device: &mut D,
        scratch: &mut [u8; BLOCK],
        a: u64,
        b: u64,
    ) -> (r: Result<(Self, bool), Error<D::Error>>)
        requires
            D::BLOCK == BLOCK,
            BLOCK > BLOCK_FRAME,
            manifest_shape(LEVELS, TABLES, KEY_MAX),
            a + max_blocks_of(LEVELS, TABLES, KEY_MAX, BLOCK as nat) <= u64::MAX,
            b + max_blocks_of(LEVELS, TABLES, KEY_MAX, BLOCK as nat) <= u64::MAX,
        ensures
            *final(device) == *old(device),
            exists|layout: ManifestLayout| #[trigger]
                is_pair(layout, a, b) && Self::recovered(
                    r,
                    recovery_of(
                        old(device).content(),
                        layout,
                        LEVELS,
                        TABLES,
                        KEY_MAX,
                        BLOCK as nat,
                    ),
                ),
    {
        let layout: ManifestLayout = ManifestLayout::pair(a, b);
        assert(is_pair(layout, a, b));
        assert(layout.fits(max_blocks_of(LEVELS, TABLES, KEY_MAX, BLOCK as nat)));
        Self::recover_from(device, scratch, layout)
    }

    /// A recovery's result is what the copies on the device hold, unless the
    /// device failed.
    pub open spec fn recovered<E>(r: Result<(Self, bool), Error<E>>, found: Recovery) -> bool {
        match r {
            Ok((m, fresh)) => m.wf() && m.padded() && (if fresh {
                found is Fresh && m@ == fresh_manifest(LEVELS as nat)
            } else {
                found == Recovery::Found(m@)
            }),
            Err(Error::CorruptManifest) => found is Corrupt,
            Err(e) => e is Device,
        }
    }

    /// Reads every copy and returns the newest intact one.
    ///
    /// A copy is intact when all of its blocks carry valid CRCs, the same
    /// `seq`, and a consistent index and count. Copies that were never
    /// written are blank: all zeros on a zeroed device, all `0xFF` on
    /// erased NOR flash. No intact copy but a blank one means a fresh
    /// device (`true`): either nothing was ever committed, or the *first*
    /// commit was torn, and then the WAL (whose head is still `wal_start`)
    /// replays everything.
    ///
    /// # Errors
    ///
    /// [`Error::CorruptManifest`] when no copy is intact or blank, or
    /// [`Error::Device`] on I/O failure.
    pub fn recover_from<D: BlockDevice, const BLOCK: usize>(
        device: &mut D,
        scratch: &mut [u8; BLOCK],
        layout: ManifestLayout,
    ) -> (r: Result<(Self, bool), Error<D::Error>>)
        requires
            D::BLOCK == BLOCK,
            BLOCK > BLOCK_FRAME,
            manifest_shape(LEVELS, TABLES, KEY_MAX),
            layout.fits(max_blocks_of(LEVELS, TABLES, KEY_MAX, BLOCK as nat)),
        ensures
            *final(device) == *old(device),
            Self::recovered(
                r,
                recovery_of(old(device).content(), layout, LEVELS, TABLES, KEY_MAX, BLOCK as nat),
            ),
    {
        let stride: u64 = Self::max_blocks::<BLOCK>();
        let ghost c = device.content();
        let ghost st = stride as int;
        let ghost chunk = BLOCK - BLOCK_FRAME;
        let mut best: Option<(u64, u64, usize)> = None;
        let mut blank: bool = false;
        let copies: u32 = layout.copies();
        let mut k: u32 = 0;
        while k < copies
            invariant
                D::BLOCK == BLOCK,
                BLOCK > BLOCK_FRAME,
                *device == *old(device),
                c == device.content(),
                st == stride,
                st == max_blocks_of(LEVELS, TABLES, KEY_MAX, BLOCK as nat),
                chunk == BLOCK - BLOCK_FRAME,
                layout.fits(st),
                copies == layout.n(),
                k <= copies,
                best_copy(c, layout, st, chunk, k as nat) == (match best {
                    None => None,
                    Some((s, p, n)) => Some((s, p, n as nat)),
                }),
                blank == any_blank(c, layout, st, chunk, k as nat),
            decreases copies - k,
        {
            proof {
                layout.lemma_start_nonneg(k as int, st);
                assert(layout.start_of(k as int, st) + st <= u64::MAX);
            }
            let start: u64 = layout.copy_start(k, stride);
            let ghost p = probe_of(c, start, st, chunk);
            match Self::probe_copy(&*device, scratch, start, stride) {
                Ok(Probe::Intact { seq, count }) => {
                    let newer: bool = match best {
                        None => true,
                        Some((s, _, _)) => seq > s,
                    };
                    if newer {
                        best = Some((seq, start, count));
                    }
                },
                Ok(Probe::Blank) => {
                    blank = true;
                },
                Ok(Probe::Corrupt) => {},
                Err(e) => {
                    return Err(e);
                },
            }
            proof {
                assert(blank == any_blank(c, layout, st, chunk, (k + 1) as nat)) by {
                    assert(p == probe_of(c, layout.start_of(k as int, st) as u64, st, chunk));
                    if any_blank(c, layout, st, chunk, k as nat) {
                        let j = choose|j: int|
                            0 <= j < k && #[trigger] probe_of(
                                c,
                                layout.start_of(j, st) as u64,
                                st,
                                chunk,
                            ) is Blank;
                        assert(0 <= j < k + 1 && probe_of(
                            c,
                            layout.start_of(j, st) as u64,
                            st,
                            chunk,
                        ) is Blank);
                    } else if any_blank(c, layout, st, chunk, (k + 1) as nat) {
                        let j = choose|j: int|
                            0 <= j < k + 1 && #[trigger] probe_of(
                                c,
                                layout.start_of(j, st) as u64,
                                st,
                                chunk,
                            ) is Blank;
                        assert(j == k);
                    }
                }
            }
            k = k + 1;
        }
        let (seq, start, count): (u64, u64, usize) = match best {
            None => {
                return if blank {
                    Ok((Manifest::new(), true))
                } else {
                    Err(Error::CorruptManifest)
                };
            },
            Some(b) => b,
        };
        proof {
            lemma_best_from(c, layout, st, chunk, copies as nat);
            let j = choose|j: int|
                0 <= j < copies && start == #[trigger] layout.start_of(j, st) as u64 && probe_of(
                    c,
                    layout.start_of(j, st) as u64,
                    st,
                    chunk,
                ) == (ProbeV::Intact { seq, count: count as nat });
            layout.lemma_start_nonneg(j, st);
            assert(layout.start_of(j, st) + st <= u64::MAX);
            let h = head_of(c[start])->0;
            assert forall|i: int| 0 <= i < count implies head_of(
                #[trigger] c[(start + i) as u64],
            ) is Some by {
                if i > 0 {
                    assert(block_agrees(c, start, h, i, chunk));
                }
            }
        }
        let mut src: BlockSource<'_, D, BLOCK> = BlockSource::new(&*device, start, count);
        let ghost body = src.rest();
        let m: Self = match Self::decode_body(&mut src, seq) {
            Ok(m) => m,
            Err(e) => {
                return Err(e);
            },
        };
        proof {
            lemma_fixed_first(body, LEVELS as nat);
            if count == 1 {
                lemma_one_chunk(c, start);
            }
        }
        if !src.ended() {
            return Err(Error::CorruptManifest);
        }
        Ok((m, false))
    }

    /// Commits to the two-copy manifest at blocks `a` and `b`: shorthand
    /// for [`commit_to`](Self::commit_to) with [`ManifestLayout::pair`].
    ///
    /// # Errors
    ///
    /// As [`commit_to`](Self::commit_to).
    pub fn commit<D: BlockDevice, const BLOCK: usize>(
        &mut self,
        device: &mut D,
        scratch: &mut [u8; BLOCK],
        a: u64,
        b: u64,
    ) -> (r: Result<(), Error<D::Error>>)
        requires
            old(self).wf(),
            D::BLOCK == BLOCK,
            BLOCK > BLOCK_FRAME,
            a + max_blocks_of(LEVELS, TABLES, KEY_MAX, BLOCK as nat) <= u64::MAX,
            b + max_blocks_of(LEVELS, TABLES, KEY_MAX, BLOCK as nat) <= u64::MAX,
        ensures
            final(self).wf(),
            final(self).padded() == old(self).padded(),
            r is Ok ==> final(device).durable() == final(device).content(),
            r matches Err(e) ==> e is Device || *final(device) == *old(device),
            synced_outside(
                &*old(device),
                &*final(device),
                (if (old(self)@.seq + 1) % 2 == 0 {
                    a as int
                } else {
                    b as int
                }),
                (if (old(self)@.seq + 1) % 2 == 0 {
                    a as int
                } else {
                    b as int
                })
                    + copy_blocks(final(self)@, BLOCK as nat),
            ),
            committed_at(
                old(self)@,
                final(self)@,
                old(device).content(),
                final(device).content(),
                if (old(self)@.seq + 1) % 2 == 0 {
                    a as int
                } else {
                    b as int
                },
                BLOCK as nat,
                r,
            ),
    {
        let layout: ManifestLayout = ManifestLayout::pair(a, b);
        let ghost st = max_blocks_of(LEVELS, TABLES, KEY_MAX, BLOCK as nat);
        assert(layout.fits(st));
        assert(layout.start_of(0, st) == a);
        assert(layout.start_of(1, st) == b);
        self.commit_to(device, scratch, layout)
    }

    /// Commits: bumps `seq`, writes copy `seq % copies` block by block,
    /// then flushes the device. Only the blocks the manifest currently
    /// fills are written.
    ///
    /// # Errors
    ///
    /// [`Error::NoSpace`] when the sequence counter overflows or the copy is
    /// too large for the block headers' counters, or [`Error::Device`] on
    /// I/O failure.
    pub fn commit_to<D: BlockDevice, const BLOCK: usize>(
        &mut self,
        device: &mut D,
        scratch: &mut [u8; BLOCK],
        layout: ManifestLayout,
    ) -> (r: Result<(), Error<D::Error>>)
        requires
            old(self).wf(),
            D::BLOCK == BLOCK,
            BLOCK > BLOCK_FRAME,
            layout.fits(max_blocks_of(LEVELS, TABLES, KEY_MAX, BLOCK as nat)),
        ensures
            final(self).wf(),
            final(self).padded() == old(self).padded(),
            r is Ok ==> final(device).durable() == final(device).content(),
            r matches Err(e) ==> e is Device || *final(device) == *old(device),
            synced_outside(
                &*old(device),
                &*final(device),
                layout.start_of(
                    (old(self)@.seq + 1) % layout.n(),
                    max_blocks_of(LEVELS, TABLES, KEY_MAX, BLOCK as nat),
                ),
                layout.start_of(
                    (old(self)@.seq + 1) % layout.n(),
                    max_blocks_of(LEVELS, TABLES, KEY_MAX, BLOCK as nat),
                )
                    + copy_blocks(final(self)@, BLOCK as nat),
            ),
            committed_at(
                old(self)@,
                final(self)@,
                old(device).content(),
                final(device).content(),
                layout.start_of(
                    (old(self)@.seq + 1) % layout.n(),
                    max_blocks_of(LEVELS, TABLES, KEY_MAX, BLOCK as nat),
                ),
                BLOCK as nat,
                r,
            ),
    {
        if self.seq == u64::MAX {
            return Err(Error::NoSpace);
        }
        self.seq = self.seq + 1;
        proof {
            assert(self@.levels =~= old(self)@.levels);
            layout.lemma_n();
        }
        let stride: u64 = Self::max_blocks::<BLOCK>();
        let copies: u64 = layout.copies() as u64;
        let k: u32 = (self.seq % copies) as u32;
        proof {
            assert(k as int == (old(self)@.seq + 1) % layout.n());
            layout.lemma_start_nonneg(k as int, stride as int);
            assert(layout.start_of(k as int, stride as int) + stride <= u64::MAX);
        }
        let start: u64 = layout.copy_start(k, stride);
        let n: usize = self.encoded_blocks::<BLOCK>();
        let ghost v = self@;
        let ghost c0 = device.content();
        let mut i: usize = 0;
        while i < n
            invariant
                self.wf(),
                self.padded() == old(self).padded(),
                self@ == v,
                old(self)@.seq < u64::MAX,
                v == (ManV { seq: (old(self)@.seq + 1) as u64, ..old(self)@ }),
                c0 == old(device).content(),
                D::BLOCK == BLOCK,
                BLOCK > BLOCK_FRAME,
                n == copy_blocks(v, BLOCK as nat),
                start + n <= u64::MAX,
                start == layout.start_of(
                    (old(self)@.seq + 1) % layout.n(),
                    max_blocks_of(LEVELS, TABLES, KEY_MAX, BLOCK as nat),
                ),
                i <= n,
                i == 0 ==> *device == *old(device),
                synced_outside(&*old(device), &*device, start as int, start + n),
                i > 0 ==> encodable(v, BLOCK as nat),
                same_outside(c0, device.content(), start as int, start + n),
                forall|j: int|
                    0 <= j < i ==> device.content()[(start + j) as u64] == #[trigger] block_bytes(
                        v,
                        j,
                        BLOCK as nat,
                    ),
            decreases n - i,
        {
            match self.encode_block::<D::Error, BLOCK>(i, scratch) {
                Ok(()) => {},
                Err(e) => {
                    return Err(e);
                },
            }
            let ghost before = *device;
            let wrote = device.write_block(start + i as u64, scratch);
            proof {
                assert(synced_outside(&before, &*device, start as int, start + n));
                lemma_synced_on(&*old(device), &before, &*device, start as int, start + n);
            }
            match wrote {
                Ok(()) => {},
                Err(e) => {
                    return Err(Error::Device(e));
                },
            }
            i = i + 1;
        }
        let ghost before = *device;
        let flushed = device.flush();
        proof {
            assert(synced_outside(&before, &*device, start as int, start + n));
            lemma_synced_on(&*old(device), &before, &*device, start as int, start + n);
        }
        match flushed {
            Ok(()) => Ok(()),
            Err(e) => Err(Error::Device(e)),
        }
    }
}

/// The two-copy layout at blocks `a` and `b`.
pub open spec fn is_pair(layout: ManifestLayout, a: u64, b: u64) -> bool {
    &&& layout.n() == 2
    &&& forall|stride: int| #[trigger] layout.start_of(0, stride) == a
    &&& forall|stride: int| #[trigger] layout.start_of(1, stride) == b
}

/// A commit of `v0` to the copy at `start`: the manifest takes the next
/// sequence; on success the copy holds it; nothing outside the copy changes.
pub open spec fn committed_at<E>(
    v0: ManV,
    v1: ManV,
    c0: Map<u64, Seq<u8>>,
    c1: Map<u64, Seq<u8>>,
    start: int,
    block: nat,
    r: Result<(), Error<E>>,
) -> bool {
    if v0.seq == u64::MAX {
        &&& r == Err::<(), Error<E>>(Error::NoSpace)
        &&& v1 == v0
        &&& c1 == c0
    } else {
        &&& v1 == (ManV { seq: (v0.seq + 1) as u64, ..v0 })
        &&& if !encodable(v1, block) {
            &&& r == Err::<(), Error<E>>(Error::NoSpace)
            &&& c1 == c0
        } else {
            &&& same_outside(c0, c1, start, start + copy_blocks(v1, block))
            &&& match r {
                Ok(()) => holds_copy(c1, v1, start, block),
                Err(e) => e is Device,
            }
        }
    }
}

} // verus!

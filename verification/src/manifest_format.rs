//! The manifest's bytes: what a manifest encodes to, what a body decodes
//! to, and which copy a recovery picks.
//!
//! Block layout (all little-endian):
//!
//! ```text
//! magic: u64 = "hrtman05" | seq: u64 | index: u16 | count: u16
//!     | len: u32 | body[len] | crc32: u32
//! ```
//!
//! `crc32` covers `magic` through the end of the block's body chunk; the
//! rest of the block is zero padding. Every block but the last of a copy
//! carries a full chunk of `BLOCK - 28` body bytes. The body, concatenated
//! across the copy's `count` blocks, is:
//!
//! ```text
//! wal_head: u64 | next_table_id: u32 | flushed_seq: u64 | seq_high: u64
//!     | nlevels: u32
//! per level: count: u32 | count * tableref
//! tableref: id: u32 | first_block: u64 | block_count: u32
//!           | fk_len: u16 | fk_bytes[fk_len]
//!           | lk_len: u16 | lk_bytes[lk_len]
//!           | max_seq: u64 | min_seq: u64 | entry_count: u32 | rdel_blocks: u32
//! ```

use vstd::prelude::*;

use crate::bytes::{
    le_bytes, le_value, lemma_le_bytes_len, lemma_le_roundtrip, lemma_pow256, lemma_take_le,
    take_le,
};
use crate::crc::crc32_of;
use crate::wal::{all_zeros, padded};

verus! {

/// Manifest block magic: ASCII "hrtman05".
pub const MANIFEST_MAGIC: u64 = 0x3530_6E61_6D74_7268;

/// Bytes of block header before a body chunk: magic, seq, index, count, len.
pub const BLOCK_HEADER: usize = 24;

/// Bytes of a block's trailing CRC32.
pub const BLOCK_CRC: usize = 4;

/// Bytes a manifest block spends on its frame.
pub const BLOCK_FRAME: usize = 28;

/// One table's placement record, as a value.
#[verifier::ext_equal]
pub struct TabV {
    pub id: u32,
    pub first_block: u64,
    pub block_count: u32,
    pub first_key: Seq<u8>,
    pub last_key: Seq<u8>,
    pub max_seq: u64,
    pub min_seq: u64,
    pub entry_count: u32,
    pub rdel_blocks: u32,
}

/// A manifest, as a value.
#[verifier::ext_equal]
pub struct ManV {
    pub seq: u64,
    pub wal_head: u64,
    pub next_table_id: u32,
    pub flushed_seq: u64,
    pub seq_high: u64,
    /// The tables of each level.
    pub levels: Seq<Seq<TabV>>,
}

/// A manifest that nothing was ever committed to.
pub open spec fn fresh_manifest(nlevels: nat) -> ManV {
    ManV {
        seq: 0,
        wal_head: 0,
        next_table_id: 0,
        flushed_seq: 0,
        seq_high: 0,
        levels: Seq::new(nlevels, |i: int| Seq::<TabV>::empty()),
    }
}

/// Tables in all levels together.
pub open spec fn total_tables(ls: Seq<Seq<TabV>>) -> nat
    decreases ls.len(),
{
    if ls.len() == 0 {
        0
    } else {
        ls[0].len() + total_tables(ls.skip(1))
    }
}

/// Every table's key bounds fit `key_max` bytes.
pub open spec fn keys_fit(ls: Seq<Seq<TabV>>, key_max: nat) -> bool {
    forall|l: int, i: int|
        0 <= l < ls.len() && 0 <= i < ls[l].len() ==> (#[trigger] ls[l][i]).first_key.len()
            <= key_max && ls[l][i].last_key.len() <= key_max
}

/// A manifest of this shape can hold `v`.
pub open spec fn fits_shape(v: ManV, nlevels: nat, tables: nat, key_max: nat) -> bool {
    &&& v.levels.len() == nlevels
    &&& nlevels > 0 ==> v.levels[0].len() <= tables
    &&& total_tables(v.levels) <= nlevels * tables
    &&& keys_fit(v.levels, key_max)
}

// ---------------------------------------------------------------------
// Encoding.

/// The bytes of one table record.
#[verifier::opaque]
pub open spec fn tab_bytes(t: TabV) -> Seq<u8> {
    le_bytes(t.id as nat, 4) + le_bytes(t.first_block as nat, 8) + le_bytes(t.block_count as nat, 4)
        + le_bytes(t.first_key.len(), 2) + t.first_key + le_bytes(t.last_key.len(), 2) + t.last_key
        + le_bytes(t.max_seq as nat, 8) + le_bytes(t.min_seq as nat, 8) + le_bytes(
        t.entry_count as nat,
        4,
    ) + le_bytes(t.rdel_blocks as nat, 4)
}

/// The bytes of table records one after the other.
pub open spec fn tabs_bytes(ts: Seq<TabV>) -> Seq<u8>
    decreases ts.len(),
{
    if ts.len() == 0 {
        Seq::empty()
    } else {
        tab_bytes(ts[0]) + tabs_bytes(ts.skip(1))
    }
}

/// The bytes of all levels.
pub open spec fn levels_bytes(ls: Seq<Seq<TabV>>) -> Seq<u8>
    decreases ls.len(),
{
    if ls.len() == 0 {
        Seq::empty()
    } else {
        le_bytes(ls[0].len(), 4) + tabs_bytes(ls[0]) + levels_bytes(ls.skip(1))
    }
}

/// The body before the levels.
#[verifier::opaque]
pub open spec fn fixed_bytes(v: ManV) -> Seq<u8> {
    le_bytes(v.wal_head as nat, 8) + le_bytes(v.next_table_id as nat, 4) + le_bytes(
        v.flushed_seq as nat,
        8,
    ) + le_bytes(v.seq_high as nat, 8) + le_bytes(v.levels.len(), 4)
}

/// The body of a manifest.
pub open spec fn body_bytes(v: ManV) -> Seq<u8> {
    fixed_bytes(v) + levels_bytes(v.levels)
}

/// How many chunks of `chunk` bytes hold `len` bytes.
pub open spec fn chunks_for(len: int, chunk: int) -> int {
    len / chunk + if len % chunk == 0 {
        0int
    } else {
        1int
    }
}

/// Blocks a manifest's copy takes.
pub open spec fn copy_blocks(v: ManV, block: nat) -> int {
    chunks_for(body_bytes(v).len() as int, block - BLOCK_FRAME)
}

/// The body bytes block `index` of a copy carries.
pub open spec fn chunk_of(body: Seq<u8>, index: int, chunk: int) -> Seq<u8> {
    let lo = index * chunk;
    let hi = if lo + chunk < body.len() {
        lo + chunk
    } else {
        body.len() as int
    };
    body.subrange(lo, hi)
}

/// Header and chunk of a manifest block.
#[verifier::opaque]
pub open spec fn framed_bytes(seq: u64, index: nat, count: nat, chunk: Seq<u8>) -> Seq<u8> {
    le_bytes(MANIFEST_MAGIC as nat, 8) + le_bytes(seq as nat, 8) + le_bytes(index, 2) + le_bytes(
        count,
        2,
    ) + le_bytes(chunk.len(), 4) + chunk
}

/// Block `index` of the copy of `v`.
pub open spec fn block_bytes(v: ManV, index: int, block: nat) -> Seq<u8> {
    let f = framed_bytes(
        v.seq,
        index as nat,
        copy_blocks(v, block) as nat,
        chunk_of(body_bytes(v), index, block - BLOCK_FRAME),
    );
    padded(f + le_bytes(crc32_of(f) as nat, 4), block)
}

// ---------------------------------------------------------------------
// Decoding.

/// A length-prefixed key of at most `key_max` bytes.
pub open spec fn take_key(s: Seq<u8>, key_max: nat) -> Option<(Seq<u8>, Seq<u8>)> {
    match take_le(s, 2) {
        None => None,
        Some((n, s1)) => {
            if n > key_max || n > s1.len() {
                None
            } else {
                Some((s1.take(n as int), s1.skip(n as int)))
            }
        },
    }
}

/// A table record up to its second key.
pub open spec fn take_tab_head(s: Seq<u8>, key_max: nat) -> Option<(TabV, Seq<u8>)> {
    match take_le(s, 4) {
        None => None,
        Some((id, s1)) => match take_le(s1, 8) {
            None => None,
            Some((first_block, s2)) => match take_le(s2, 4) {
                None => None,
                Some((block_count, s3)) => match take_key(s3, key_max) {
                    None => None,
                    Some((first_key, s4)) => match take_key(s4, key_max) {
                        None => None,
                        Some((last_key, s5)) => Some(
                            (
                                TabV {
                                    id: id as u32,
                                    first_block: first_block as u64,
                                    block_count: block_count as u32,
                                    first_key,
                                    last_key,
                                    max_seq: 0,
                                    min_seq: 0,
                                    entry_count: 0,
                                    rdel_blocks: 0,
                                },
                                s5,
                            ),
                        ),
                    },
                },
            },
        },
    }
}

/// A table record.
pub open spec fn take_tab(s: Seq<u8>, key_max: nat) -> Option<(TabV, Seq<u8>)> {
    match take_tab_head(s, key_max) {
        None => None,
        Some((t, s1)) => match take_le(s1, 8) {
            None => None,
            Some((max_seq, s2)) => match take_le(s2, 8) {
                None => None,
                Some((min_seq, s3)) => match take_le(s3, 4) {
                    None => None,
                    Some((entry_count, s4)) => match take_le(s4, 4) {
                        None => None,
                        Some((rdel_blocks, s5)) => Some(
                            (
                                TabV {
                                    max_seq: max_seq as u64,
                                    min_seq: min_seq as u64,
                                    entry_count: entry_count as u32,
                                    rdel_blocks: rdel_blocks as u32,
                                    ..t
                                },
                                s5,
                            ),
                        ),
                    },
                },
            },
        },
    }
}

/// `n` table records.
pub open spec fn take_tabs(s: Seq<u8>, n: nat, key_max: nat) -> Option<(Seq<TabV>, Seq<u8>)>
    decreases n,
{
    if n == 0 {
        Some((Seq::empty(), s))
    } else {
        match take_tab(s, key_max) {
            None => None,
            Some((t, s1)) => match take_tabs(s1, (n - 1) as nat, key_max) {
                None => None,
                Some((ts, s2)) => Some((seq![t] + ts, s2)),
            },
        }
    }
}

/// `n` levels, the first of at most `cap0` tables, all of at most `cap`.
pub open spec fn take_levels(s: Seq<u8>, n: nat, cap0: nat, cap: nat, key_max: nat) -> Option<
    (Seq<Seq<TabV>>, Seq<u8>),
>
    decreases n,
{
    if n == 0 {
        Some((Seq::empty(), s))
    } else {
        match take_le(s, 4) {
            None => None,
            Some((count, s1)) => {
                if count > cap0 || count > cap {
                    None
                } else {
                    match take_tabs(s1, count, key_max) {
                        None => None,
                        Some((ts, s2)) => {
                            let left = (cap - count) as nat;
                            match take_levels(s2, (n - 1) as nat, left, left, key_max) {
                                None => None,
                                Some((ls, s3)) => Some((seq![ts] + ls, s3)),
                            }
                        },
                    }
                }
            },
        }
    }
}

/// The fixed fields of a body; the levels are still to come.
pub open spec fn take_fixed(s: Seq<u8>, nlevels: nat) -> Option<(ManV, Seq<u8>)> {
    match take_le(s, 8) {
        None => None,
        Some((wal_head, s1)) => match take_le(s1, 4) {
            None => None,
            Some((next_table_id, s2)) => match take_le(s2, 8) {
                None => None,
                Some((flushed_seq, s3)) => match take_le(s3, 8) {
                    None => None,
                    Some((seq_high, s4)) => match take_le(s4, 4) {
                        None => None,
                        Some((n, s5)) => if n != nlevels {
                            None
                        } else {
                            Some(
                                (
                                    ManV {
                                        seq: 0,
                                        wal_head: wal_head as u64,
                                        next_table_id: next_table_id as u32,
                                        flushed_seq: flushed_seq as u64,
                                        seq_high: seq_high as u64,
                                        levels: Seq::empty(),
                                    },
                                    s5,
                                ),
                            )
                        },
                    },
                },
            },
        },
    }
}

/// The manifest a whole body decodes to, with sequence `seq`; `None` on any
/// inconsistency, bytes left over included.
pub open spec fn body_parse(
    s: Seq<u8>,
    seq: u64,
    nlevels: nat,
    tables: nat,
    key_max: nat,
) -> Option<ManV> {
    match take_fixed(s, nlevels) {
        None => None,
        Some((v, s1)) => {
            let cap = nlevels * tables;
            let cap0 = if tables < cap {
                tables
            } else {
                cap
            };
            match take_levels(s1, nlevels, cap0, cap, key_max) {
                None => None,
                Some((levels, rest)) => if rest.len() > 0 {
                    None
                } else {
                    Some(ManV { seq, levels, ..v })
                },
            }
        },
    }
}

// ---------------------------------------------------------------------
// Round trips.

proof fn lemma_take_key(k: Seq<u8>, rest: Seq<u8>, key_max: nat)
    requires
        k.len() <= key_max,
        k.len() <= 0xFFFF,
    ensures
        take_key(le_bytes(k.len(), 2) + (k + rest), key_max) == Some((k, rest)),
{
    lemma_pow256();
    lemma_take_le(k.len(), 2, k + rest);
    assert((k + rest).take(k.len() as int) =~= k);
    assert((k + rest).skip(k.len() as int) =~= rest);
}

proof fn lemma_take_tab(t: TabV, rest: Seq<u8>, key_max: nat)
    requires
        t.first_key.len() <= key_max,
        t.last_key.len() <= key_max,
        key_max <= 0xFFFF,
    ensures
        take_tab(tab_bytes(t) + rest, key_max) == Some((t, rest)),
        tab_bytes(t).len() == 44 + t.first_key.len() + t.last_key.len(),
{
    broadcast use lemma_le_bytes_len;

    reveal(tab_bytes);
    lemma_pow256();
    let r10 = le_bytes(t.rdel_blocks as nat, 4) + rest;
    let r9 = le_bytes(t.entry_count as nat, 4) + r10;
    let r8 = le_bytes(t.min_seq as nat, 8) + r9;
    let r7 = le_bytes(t.max_seq as nat, 8) + r8;
    let r6 = t.last_key + r7;
    let r5 = le_bytes(t.last_key.len(), 2) + r6;
    let r4 = t.first_key + r5;
    let r3 = le_bytes(t.first_key.len(), 2) + r4;
    let r2 = le_bytes(t.block_count as nat, 4) + r3;
    let r1 = le_bytes(t.first_block as nat, 8) + r2;
    let r0 = le_bytes(t.id as nat, 4) + r1;
    assert(tab_bytes(t) + rest =~= r0);
    lemma_take_le(t.id as nat, 4, r1);
    lemma_take_le(t.first_block as nat, 8, r2);
    lemma_take_le(t.block_count as nat, 4, r3);
    lemma_take_key(t.first_key, r5, key_max);
    lemma_take_key(t.last_key, r7, key_max);
    lemma_take_le(t.max_seq as nat, 8, r8);
    lemma_take_le(t.min_seq as nat, 8, r9);
    lemma_take_le(t.entry_count as nat, 4, r10);
    lemma_take_le(t.rdel_blocks as nat, 4, rest);
}

proof fn lemma_take_tabs(ts: Seq<TabV>, rest: Seq<u8>, key_max: nat)
    requires
        key_max <= 0xFFFF,
        forall|i: int|
            0 <= i < ts.len() ==> (#[trigger] ts[i]).first_key.len() <= key_max
                && ts[i].last_key.len() <= key_max,
    ensures
        take_tabs(tabs_bytes(ts) + rest, ts.len(), key_max) == Some((ts, rest)),
    decreases ts.len(),
{
    if ts.len() == 0 {
        assert(tabs_bytes(ts) + rest =~= rest);
        assert(ts =~= Seq::<TabV>::empty());
    } else {
        let tail = ts.skip(1);
        assert forall|i: int| 0 <= i < tail.len() implies (#[trigger] tail[i]).first_key.len()
            <= key_max && tail[i].last_key.len() <= key_max by {
            assert(tail[i] == ts[i + 1]);
        }
        lemma_take_tabs(tail, rest, key_max);
        lemma_take_tab(ts[0], tabs_bytes(tail) + rest, key_max);
        assert(tabs_bytes(ts) + rest =~= tab_bytes(ts[0]) + (tabs_bytes(tail) + rest));
        assert(ts =~= seq![ts[0]] + tail);
    }
}

proof fn lemma_take_levels(
    ls: Seq<Seq<TabV>>,
    rest: Seq<u8>,
    cap0: nat,
    cap: nat,
    key_max: nat,
)
    requires
        key_max <= 0xFFFF,
        keys_fit(ls, key_max),
        ls.len() > 0 ==> ls[0].len() <= cap0,
        total_tables(ls) <= cap,
        cap <= u32::MAX,
    ensures
        take_levels(levels_bytes(ls) + rest, ls.len(), cap0, cap, key_max) == Some((ls, rest)),
    decreases ls.len(),
{
    if ls.len() == 0 {
        assert(levels_bytes(ls) + rest =~= rest);
        assert(ls =~= Seq::<Seq<TabV>>::empty());
    } else {
        let tail = ls.skip(1);
        let n = ls[0].len();
        assert(keys_fit(tail, key_max)) by {
            assert forall|l: int, i: int|
                0 <= l < tail.len() && 0 <= i < tail[l].len() implies (
            #[trigger] tail[l][i]).first_key.len() <= key_max && tail[l][i].last_key.len()
                <= key_max by {
                assert(ls[l + 1][i] == tail[l][i]);
            }
        }
        let left = (cap - n) as nat;
        if tail.len() > 0 {
            assert(tail[0].len() <= total_tables(tail));
        }
        lemma_take_levels(tail, rest, left, left, key_max);
        let r1 = levels_bytes(tail) + rest;
        let r0 = tabs_bytes(ls[0]) + r1;
        lemma_pow256();
        lemma_take_le(n, 4, r0);
        assert forall|i: int| 0 <= i < n implies (#[trigger] ls[0][i]).first_key.len() <= key_max
            && ls[0][i].last_key.len() <= key_max by {}
        lemma_take_tabs(ls[0], r1, key_max);
        assert(levels_bytes(ls) + rest =~= le_bytes(n, 4) + r0);
        assert(ls =~= seq![ls[0]] + tail);
    }
}

/// Decoding the body of a manifest gives the manifest back.
pub proof fn law_body_roundtrip(v: ManV, nlevels: nat, tables: nat, key_max: nat)
    requires
        fits_shape(v, nlevels, tables, key_max),
        key_max <= 0xFFFF,
        nlevels <= u32::MAX,
        nlevels * tables <= u32::MAX,
    ensures
        body_parse(body_bytes(v), v.seq, nlevels, tables, key_max) == Some(v),
{
    broadcast use lemma_le_bytes_len;

    reveal(fixed_bytes);
    lemma_pow256();
    let lv = levels_bytes(v.levels);
    let r4 = le_bytes(v.levels.len(), 4) + lv;
    let r3 = le_bytes(v.seq_high as nat, 8) + r4;
    let r2 = le_bytes(v.flushed_seq as nat, 8) + r3;
    let r1 = le_bytes(v.next_table_id as nat, 4) + r2;
    let r0 = le_bytes(v.wal_head as nat, 8) + r1;
    assert(body_bytes(v) =~= r0);
    lemma_take_le(v.wal_head as nat, 8, r1);
    lemma_take_le(v.next_table_id as nat, 4, r2);
    lemma_take_le(v.flushed_seq as nat, 8, r3);
    lemma_take_le(v.seq_high as nat, 8, r4);
    lemma_take_le(v.levels.len(), 4, lv);
    let cap = nlevels * tables;
    let cap0 = if tables < cap {
        tables
    } else {
        cap
    };
    if nlevels > 0 {
        assert(v.levels[0].len() <= total_tables(v.levels));
    }
    assert(lv + Seq::<u8>::empty() =~= lv);
    lemma_take_levels(v.levels, Seq::empty(), cap0, cap, key_max);
}

/// The length of a body: fixed fields, one count per level, and the tables.
pub proof fn lemma_levels_len(ls: Seq<Seq<TabV>>, key_max: nat)
    requires
        keys_fit(ls, key_max),
        key_max <= 0xFFFF,
    ensures
        levels_bytes(ls).len() <= 4 * ls.len() + total_tables(ls) * (44 + 2 * key_max),
    decreases ls.len(),
{
    if ls.len() > 0 {
        let tail = ls.skip(1);
        assert(keys_fit(tail, key_max)) by {
            assert forall|l: int, i: int|
                0 <= l < tail.len() && 0 <= i < tail[l].len() implies (
            #[trigger] tail[l][i]).first_key.len() <= key_max && tail[l][i].last_key.len()
                <= key_max by {
                assert(ls[l + 1][i] == tail[l][i]);
            }
        }
        lemma_levels_len(tail, key_max);
        assert forall|i: int| 0 <= i < ls[0].len() implies (#[trigger] ls[0][i]).first_key.len()
            <= key_max && ls[0][i].last_key.len() <= key_max by {}
        lemma_tabs_len(ls[0], key_max);
        lemma_le_bytes_len(ls[0].len(), 4);
        assert((ls[0].len() + total_tables(tail)) * (44 + 2 * key_max) == ls[0].len() * (44 + 2
            * key_max) + total_tables(tail) * (44 + 2 * key_max)) by (nonlinear_arith);
    }
}

pub proof fn lemma_tabs_len(ts: Seq<TabV>, key_max: nat)
    requires
        key_max <= 0xFFFF,
        forall|i: int|
            0 <= i < ts.len() ==> (#[trigger] ts[i]).first_key.len() <= key_max
                && ts[i].last_key.len() <= key_max,
    ensures
        tabs_bytes(ts).len() <= ts.len() * (44 + 2 * key_max),
    decreases ts.len(),
{
    if ts.len() > 0 {
        let tail = ts.skip(1);
        assert forall|i: int| 0 <= i < tail.len() implies (#[trigger] tail[i]).first_key.len()
            <= key_max && tail[i].last_key.len() <= key_max by {
            assert(tail[i] == ts[i + 1]);
        }
        lemma_tabs_len(tail, key_max);
        lemma_take_tab(ts[0], Seq::empty(), key_max);
        assert(ts.len() * (44 + 2 * key_max) == tail.len() * (44 + 2 * key_max) + (44 + 2
            * key_max)) by (nonlinear_arith)
            requires
                ts.len() == tail.len() + 1,
        ;
    }
}

/// The fixed part of a body has 32 bytes.
pub proof fn lemma_fixed_len(v: ManV)
    ensures
        fixed_bytes(v).len() == 32,
{
    broadcast use lemma_le_bytes_len;

    reveal(fixed_bytes);
}

// ---------------------------------------------------------------------
// Copies on the device.

/// A manifest block's header.
pub struct HeadV {
    pub seq: u64,
    pub index: nat,
    pub count: nat,
    pub len: nat,
}

/// The header of a block whose magic, length and CRC are valid.
pub open spec fn head_of(b: Seq<u8>) -> Option<HeadV> {
    let len = le_value(b.subrange(20, 24));
    let end = 24 + len as int;
    if b.len() < 28 || le_value(b.subrange(0, 8)) != MANIFEST_MAGIC {
        None
    } else if end + 4 > b.len() {
        None
    } else if le_value(b.subrange(end, end + 4)) != crc32_of(b.subrange(0, end)) {
        None
    } else {
        Some(
            HeadV {
                seq: le_value(b.subrange(8, 16)) as u64,
                index: le_value(b.subrange(16, 18)),
                count: le_value(b.subrange(18, 20)),
                len,
            },
        )
    }
}

/// A written block reads back: its header is valid and names its place, and
/// its chunk is the one written.
pub proof fn law_block_roundtrip(seq: u64, index: nat, count: nat, chunk: Seq<u8>, n: nat)
    requires
        index <= 0xFFFF,
        count <= 0xFFFF,
        chunk.len() <= u32::MAX,
        chunk.len() + BLOCK_FRAME <= n,
    ensures
        ({
            let f = framed_bytes(seq, index, count, chunk);
            let b = padded(f + le_bytes(crc32_of(f) as nat, 4), n);
            &&& b.len() == n
            &&& head_of(b) == Some(HeadV { seq, index, count, len: chunk.len() })
            &&& b.subrange(24, 24 + chunk.len() as int) == chunk
        }),
{
    broadcast use lemma_le_bytes_len;

    reveal(framed_bytes);
    lemma_pow256();
    let f = framed_bytes(seq, index, count, chunk);
    let crc = crc32_of(f);
    let b = padded(f + le_bytes(crc as nat, 4), n);
    let end = 24 + chunk.len() as int;
    lemma_le_roundtrip(MANIFEST_MAGIC as nat, 8);
    lemma_le_roundtrip(seq as nat, 8);
    lemma_le_roundtrip(index, 2);
    lemma_le_roundtrip(count, 2);
    lemma_le_roundtrip(chunk.len(), 4);
    lemma_le_roundtrip(crc as nat, 4);
    assert(b.subrange(0, 8) =~= le_bytes(MANIFEST_MAGIC as nat, 8));
    assert(b.subrange(8, 16) =~= le_bytes(seq as nat, 8));
    assert(b.subrange(16, 18) =~= le_bytes(index, 2));
    assert(b.subrange(18, 20) =~= le_bytes(count, 2));
    assert(b.subrange(20, 24) =~= le_bytes(chunk.len(), 4));
    assert(b.subrange(24, end) =~= chunk);
    assert(b.subrange(0, end) =~= f);
    assert(b.subrange(end, end + 4) =~= le_bytes(crc as nat, 4));
}

/// What a copy turns out to be.
pub enum ProbeV {
    /// Every block intact and agreeing.
    Intact { seq: u64, count: nat },
    /// Never written.
    Blank,
    /// Written but not intact (torn or damaged).
    Corrupt,
}

/// Every byte is `0xFF`: an erased block.
pub open spec fn all_ones(s: Seq<u8>) -> bool {
    forall|i: int| 0 <= i < s.len() ==> #[trigger] s[i] == 0xFF
}

/// Block `i` of a copy agrees with the copy's first block `h`.
pub open spec fn block_agrees(
    c: Map<u64, Seq<u8>>,
    start: u64,
    h: HeadV,
    i: int,
    chunk: int,
) -> bool {
    head_of(c[(start + i) as u64]) matches Some(g) && {
        &&& g.seq == h.seq
        &&& g.index == i
        &&& g.count == h.count
        &&& i + 1 < h.count ==> g.len == chunk
    }
}

/// What the copy of at most `stride` blocks from `start` on is.
pub open spec fn probe_of(
    c: Map<u64, Seq<u8>>,
    start: u64,
    stride: int,
    chunk: int,
) -> ProbeV {
    let b = c[start];
    if all_zeros(b) || all_ones(b) {
        ProbeV::Blank
    } else {
        match head_of(b) {
            None => ProbeV::Corrupt,
            Some(h) => {
                if h.index != 0 || h.count == 0 || h.count > stride {
                    ProbeV::Corrupt
                } else if h.count > 1 && h.len != chunk {
                    ProbeV::Corrupt
                } else if forall|i: int|
                    1 <= i < h.count ==> #[trigger] block_agrees(c, start, h, i, chunk) {
                    ProbeV::Intact { seq: h.seq, count: h.count }
                } else {
                    ProbeV::Corrupt
                }
            },
        }
    }
}

/// The body of the first `n` blocks of a copy.
pub open spec fn copy_body(c: Map<u64, Seq<u8>>, start: u64, n: nat) -> Seq<u8>
    decreases n,
{
    if n == 0 {
        Seq::empty()
    } else {
        let b = c[(start + n - 1) as u64];
        copy_body(c, start, (n - 1) as nat) + b.subrange(24, 24 + head_of(b)->0.len as int)
    }
}

} // verus!

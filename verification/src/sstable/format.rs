//! The bytes of a table: entries, range tombstones, and the blocks that
//! hold them.
//!
//! - Data block: entries `key_len u16 | val_len u16 | seq u64 | op u8 |
//!   key | val | [expire_at u64]`, zero padding, then restart offsets
//!   (`u16` each, one every 16 entries), then the restart count (`u16`).
//!   The last `u16` of a compressed block carries bit 15 and the compressed
//!   length instead.
//! - Rdel block: entries `start_len u16 | end_len u16 | seq u64 | start |
//!   end`, zero padding, then the entry count (`u16`).
//! - Bloom block: the filter bytes.
//! - Index block: one entry per data block, `first_key_len u16 | first_key |
//!   block_id u64 | max_seq u64`.
//! - Footer block: `magic u64 = "lsmtable" | index_block u64 | bloom_block
//!   u64 | entry_count u64 | k u8 | rdel_blocks u32 | min_seq u64`.
//!
//! Every block ends in the CRC32 of the bytes before it.

use vstd::prelude::*;

use crate::bytes::{le_bytes, le_value, lemma_le_bytes_len, lemma_le_roundtrip, lemma_pow256};
use crate::compress::{law_lz_roundtrip, lz_decode, lz_encode, lz_worth};
use crate::crc::crc32_of;
use crate::memtable::Rec;
use crate::wal::{all_zeros, padded, Op};

verus! {

/// Footer magic: ASCII "lsmtable".
pub const SSTABLE_MAGIC: u64 = 0x6C73_6D74_6162_6C65;

/// Fixed entry header bytes: `key_len u16 | val_len u16 | seq u64 | op u8`.
pub const ENTRY_HEADER: usize = 13;

/// One restart offset every this many entries.
pub const RESTART_INTERVAL: usize = 16;

/// Restart offsets one data block can hold.
pub const MAX_RESTARTS: usize = 128;

/// Entries one data block can hold.
pub const MAX_ENTRIES_PER_BLOCK: usize = 2048;

/// CRC32 bytes trailing every block.
pub const CRC_LEN: usize = 4;

/// Trailer bytes of an rdel block: `count u16` + `crc32`.
pub const RDEL_TRAILER: usize = 6;

/// Bytes of a footer's fields.
pub const FOOTER_LEN: usize = 45;

// ---------------------------------------------------------------------
// Entries.

/// The op of a stored entry.
pub open spec fn ent_op(e: Rec) -> Op {
    if e.tombstone {
        Op::Delete
    } else if e.expire_at != 0 {
        Op::PutTtl
    } else {
        Op::Put
    }
}

/// An entry as a table stores it: a tombstone carries no value and no
/// expiry.
pub open spec fn stored(e: Rec) -> Rec {
    if e.tombstone {
        Rec { val: Seq::empty(), expire_at: 0, ..e }
    } else {
        e
    }
}

/// A table can store the entry.
pub open spec fn ent_ok(e: Rec) -> bool {
    &&& 1 <= e.key.len() <= 0xFFFF
    &&& e.val.len() <= 0xFFFF
    &&& !e.range_del
    &&& e.tombstone ==> e.val.len() == 0 && e.expire_at == 0
}

/// Expiry bytes of an entry.
pub open spec fn ent_ttl(e: Rec) -> Seq<u8> {
    if ent_op(e) == Op::PutTtl {
        le_bytes(e.expire_at as nat, 8)
    } else {
        Seq::empty()
    }
}

/// Bytes an entry takes.
pub open spec fn ent_len(e: Rec) -> nat {
    ENTRY_HEADER as nat + e.key.len() + e.val.len() + if ent_op(e) == Op::PutTtl {
        8nat
    } else {
        0nat
    }
}

/// The bytes of an entry.
#[verifier::opaque]
pub open spec fn ent_bytes(e: Rec) -> Seq<u8> {
    le_bytes(e.key.len(), 2) + le_bytes(e.val.len(), 2) + le_bytes(e.seq as nat, 8) + seq![
        ent_op(e).byte(),
    ] + e.key + e.val + ent_ttl(e)
}

/// The entry at the start of `s`, and its length. `None` when there is
/// none: cut off, an unknown op, or an empty key, as in padding.
pub open spec fn ent_parse(s: Seq<u8>) -> Option<(Rec, nat)> {
    if s.len() < ENTRY_HEADER {
        None
    } else {
        let kl = le_value(s.subrange(0, 2)) as int;
        let vl = le_value(s.subrange(2, 4)) as int;
        let end = ENTRY_HEADER + kl + vl;
        match Op::of_byte(s[12]) {
            None => None,
            Some(op) => {
                if kl == 0 || end > s.len() || (op == Op::PutTtl && end + 8 > s.len()) {
                    None
                } else {
                    Some(
                        (
                            Rec {
                                key: s.subrange(13, 13 + kl),
                                val: if op == Op::Delete {
                                    Seq::empty()
                                } else {
                                    s.subrange(13 + kl, end)
                                },
                                seq: le_value(s.subrange(4, 12)) as u64,
                                tombstone: op == Op::Delete,
                                range_del: false,
                                expire_at: if op == Op::PutTtl {
                                    le_value(s.subrange(end, end + 8)) as u64
                                } else {
                                    0
                                },
                            },
                            (if op == Op::PutTtl {
                                end + 8
                            } else {
                                end
                            }) as nat,
                        ),
                    )
                }
            },
        }
    }
}

/// A stored entry reads back, whatever follows it.
pub proof fn law_entry_roundtrip(e: Rec, rest: Seq<u8>)
    requires
        ent_ok(e),
    ensures
        ent_bytes(e).len() == ent_len(e),
        ent_parse(ent_bytes(e) + rest) == Some((e, ent_len(e))),
{
    broadcast use lemma_le_bytes_len;

    reveal(ent_bytes);
    lemma_pow256();
    let s = ent_bytes(e) + rest;
    let kl = e.key.len() as int;
    let vl = e.val.len() as int;
    let end = 13 + kl + vl;
    lemma_le_roundtrip(e.key.len(), 2);
    lemma_le_roundtrip(e.val.len(), 2);
    lemma_le_roundtrip(e.seq as nat, 8);
    lemma_le_roundtrip(e.expire_at as nat, 8);
    assert(s.subrange(0, 2) =~= le_bytes(e.key.len(), 2));
    assert(s.subrange(2, 4) =~= le_bytes(e.val.len(), 2));
    assert(s.subrange(4, 12) =~= le_bytes(e.seq as nat, 8));
    assert(s[12] == ent_op(e).byte());
    assert(s.subrange(13, 13 + kl) =~= e.key);
    assert(s.subrange(13 + kl, end) =~= e.val);
    if ent_op(e) == Op::PutTtl {
        assert(s.subrange(end, end + 8) =~= le_bytes(e.expire_at as nat, 8));
    }
    if e.tombstone {
        assert(e.val =~= Seq::<u8>::empty());
    }
}

/// Zero padding holds no entry.
pub proof fn lemma_zeros_no_entry(s: Seq<u8>)
    requires
        all_zeros(s),
    ensures
        ent_parse(s) is None,
{
    if s.len() >= ENTRY_HEADER {
        assert(s.subrange(0, 2) =~= le_bytes(0, 2)) by {
            reveal_with_fuel(le_bytes, 3);
        }
        lemma_pow256();
        lemma_le_roundtrip(0, 2);
    }
}

/// A parsed entry lies within what it was parsed from, and has a key.
pub proof fn lemma_ent_parse_bound(s: Seq<u8>)
    ensures
        ent_parse(s) matches Some((e, n)) ==> ENTRY_HEADER < n <= s.len() && 1 <= e.key.len()
            <= 0xFFFF && e.val.len() <= 0xFFFF && e.key.len() + e.val.len() <= s.len(),
{
    if s.len() >= ENTRY_HEADER {
        lemma_pow256();
        crate::bytes::lemma_le_value_bound(s.subrange(0, 2));
        crate::bytes::lemma_le_value_bound(s.subrange(2, 4));
    }
}

/// The bytes of entries one after the other.
pub open spec fn ents_bytes(es: Seq<Rec>) -> Seq<u8>
    decreases es.len(),
{
    if es.len() == 0 {
        Seq::empty()
    } else {
        ents_bytes(es.drop_last()) + ent_bytes(es.last())
    }
}

/// Bytes entries take.
pub open spec fn ents_len(es: Seq<Rec>) -> nat
    decreases es.len(),
{
    if es.len() == 0 {
        0
    } else {
        ents_len(es.drop_last()) + ent_len(es.last())
    }
}

/// Every entry can be stored.
pub open spec fn ents_ok(es: Seq<Rec>) -> bool {
    forall|i: int| 0 <= i < es.len() ==> ent_ok(#[trigger] es[i])
}

/// Where entry `i` starts.
pub open spec fn off_of(es: Seq<Rec>, i: int) -> int {
    ents_len(es.take(i)) as int
}

pub proof fn lemma_ents_bytes_len(es: Seq<Rec>)
    requires
        ents_ok(es),
    ensures
        ents_bytes(es).len() == ents_len(es),
    decreases es.len(),
{
    if es.len() > 0 {
        assert(ents_ok(es.drop_last())) by {
            assert forall|i: int| 0 <= i < es.drop_last().len() implies ent_ok(
                #[trigger] es.drop_last()[i],
            ) by {
                assert(ent_ok(es[i]));
            }
        }
        lemma_ents_bytes_len(es.drop_last());
        law_entry_roundtrip(es.last(), Seq::empty());
    }
}

/// Splitting entries splits their bytes.
pub proof fn lemma_ents_split(es: Seq<Rec>, i: int)
    requires
        ents_ok(es),
        0 <= i <= es.len(),
    ensures
        ents_bytes(es) == ents_bytes(es.take(i)) + ents_bytes(es.skip(i)),
        ents_len(es) == ents_len(es.take(i)) + ents_len(es.skip(i)),
        ents_ok(es.take(i)),
        ents_ok(es.skip(i)),
    decreases es.len() - i,
{
    assert forall|j: int| 0 <= j < es.take(i).len() implies ent_ok(#[trigger] es.take(i)[j]) by {
        assert(ent_ok(es[j]));
    }
    assert forall|j: int| 0 <= j < es.skip(i).len() implies ent_ok(#[trigger] es.skip(i)[j]) by {
        assert(ent_ok(es[j + i]));
    }
    lemma_ents_split_aux(es, i);
}

proof fn lemma_ents_split_aux(es: Seq<Rec>, i: int)
    requires
        0 <= i <= es.len(),
    ensures
        ents_bytes(es) == ents_bytes(es.take(i)) + ents_bytes(es.skip(i)),
        ents_len(es) == ents_len(es.take(i)) + ents_len(es.skip(i)),
    decreases es.len(),
{
    if i == es.len() {
        assert(es.take(i) =~= es);
        assert(es.skip(i) =~= Seq::<Rec>::empty());
        assert(ents_bytes(es) =~= ents_bytes(es.take(i)) + ents_bytes(es.skip(i)));
    } else {
        let d = es.drop_last();
        lemma_ents_split_aux(d, i);
        assert(d.take(i) =~= es.take(i));
        assert(es.skip(i).drop_last() =~= d.skip(i));
        assert(es.skip(i).last() == es.last());
        assert(ents_bytes(es) =~= ents_bytes(es.take(i)) + ents_bytes(es.skip(i)));
    }
}

/// Entry `i` is parsed where it starts.
pub proof fn lemma_entry_at(es: Seq<Rec>, i: int, rest: Seq<u8>)
    requires
        ents_ok(es),
        0 <= i < es.len(),
    ensures
        ({
            let s = ents_bytes(es) + rest;
            let off = off_of(es, i);
            &&& 0 <= off
            &&& off + ent_len(es[i]) == off_of(es, i + 1)
            &&& off_of(es, i + 1) <= ents_len(es)
            &&& off_of(es, i + 1) <= s.len()
            &&& ent_parse(s.skip(off)) == Some((es[i], ent_len(es[i])))
        }),
{
    let s = ents_bytes(es) + rest;
    lemma_ents_split(es, i);
    lemma_ents_split(es, i + 1);
    lemma_ents_bytes_len(es.take(i));
    lemma_ents_bytes_len(es);
    assert(es.take(i + 1).drop_last() =~= es.take(i));
    assert(es.take(i + 1).last() == es[i]);
    let tail = es.skip(i);
    lemma_ents_split(tail, 1);
    assert(tail.take(1) =~= seq![es[i]]);
    assert(ents_bytes(seq![es[i]]) =~= ent_bytes(es[i])) by {
        assert(seq![es[i]].drop_last() =~= Seq::<Rec>::empty());
        reveal_with_fuel(ents_bytes, 2);
    }
    let more = ents_bytes(tail.skip(1)) + rest;
    assert(s.skip(off_of(es, i)) =~= ent_bytes(es[i]) + more);
    assert(ent_ok(es[i]));
    law_entry_roundtrip(es[i], more);
}

// ---------------------------------------------------------------------
// Data blocks.

/// Restart offsets for `n` entries.
pub open spec fn restart_count(n: int) -> int {
    (n + 15) / 16
}

/// The first `r` restart offsets.
pub open spec fn restarts_bytes(es: Seq<Rec>, r: int) -> Seq<u8>
    decreases r,
{
    if r <= 0 {
        Seq::empty()
    } else {
        restarts_bytes(es, r - 1) + le_bytes(off_of(es, 16 * (r - 1)) as nat, 2)
    }
}

/// `n` zero bytes.
pub open spec fn zeros(n: int) -> Seq<u8> {
    Seq::new(n as nat, |i: int| 0u8)
}

/// The restart offsets of a block and their count.
pub open spec fn restart_tail(es: Seq<Rec>) -> Seq<u8> {
    let rc = restart_count(es.len() as int);
    restarts_bytes(es, rc) + le_bytes(rc as nat, 2)
}

/// The body of a data block: `size` bytes.
pub open spec fn body_of(es: Seq<Rec>, size: int) -> Seq<u8> {
    let gap = size - ents_len(es) - restart_tail(es).len();
    ents_bytes(es) + zeros(gap) + restart_tail(es)
}

/// An entry of `elen` bytes fits a block that holds `n` entries of
/// `payload` bytes.
pub open spec fn entry_fits(payload: int, n: int, elen: int, block: int) -> bool {
    &&& elen <= block
    &&& n < MAX_ENTRIES_PER_BLOCK
    &&& payload + elen + 2 * (n / 16 + 1) + 6 <= block
}

/// The entries fit one data block.
pub open spec fn group_ok(es: Seq<Rec>, block: int) -> bool {
    &&& 1 <= es.len() <= MAX_ENTRIES_PER_BLOCK
    &&& ents_ok(es)
    &&& ents_len(es) + 2 * restart_count(es.len() as int) + 6 <= block
    &&& forall|r: int|
        0 <= r < restart_count(es.len() as int) ==> #[trigger] off_of(es, 16 * r) <= 0xFFFF
}

/// A block: `payload` followed by its CRC.
pub open spec fn sealed(payload: Seq<u8>) -> Seq<u8> {
    payload + le_bytes(crc32_of(payload) as nat, 4)
}

/// The block's CRC is right.
pub open spec fn crc_ok(b: Seq<u8>) -> bool {
    &&& b.len() >= 4
    &&& le_value(b.subrange(b.len() - 4, b.len() as int)) == crc32_of(b.take(b.len() - 4))
}

/// What is in front of a block's CRC.
pub open spec fn payload_of(b: Seq<u8>) -> Seq<u8> {
    b.take(b.len() - 4)
}

/// A sealed block verifies, and its payload is what was sealed.
pub proof fn lemma_sealed(payload: Seq<u8>)
    ensures
        sealed(payload).len() == payload.len() + 4,
        crc_ok(sealed(payload)),
        payload_of(sealed(payload)) == payload,
{
    let b = sealed(payload);
    lemma_pow256();
    lemma_le_roundtrip(crc32_of(payload) as nat, 4);
    assert(b.take(b.len() - 4) =~= payload);
    assert(b.subrange(b.len() - 4, b.len() as int) =~= le_bytes(crc32_of(payload) as nat, 4));
}

/// The compressed form of a body.
pub open spec fn lz_body(body: Seq<u8>) -> Seq<u8> {
    let enc = lz_encode(body);
    padded(enc, (body.len() - 2) as nat) + le_bytes((0x8000 + enc.len()) as nat, 2)
}

/// `b` stores `es`: raw, or compressed where that saves enough.
pub open spec fn is_data_block(b: Seq<u8>, es: Seq<Rec>, block: int) -> bool {
    let body = body_of(es, block - 4);
    b == sealed(body) || (lz_worth(body) && b == sealed(lz_body(body)))
}

/// The logical body of a data block: inflated when bit 15 of its last `u16`
/// is set, its own payload otherwise. `None` when it does not inflate.
pub open spec fn logical_of(b: Seq<u8>) -> Option<Seq<u8>> {
    let p = payload_of(b);
    let n = p.len() as int;
    let trailer = le_value(p.subrange(n - 2, n)) as int;
    if trailer < 0x8000 {
        Some(p)
    } else if trailer - 0x8000 >= n {
        None
    } else {
        match lz_decode(p.take(trailer - 0x8000), Seq::empty(), n as nat) {
            Ok(out) => Some(out),
            Err(_) => None,
        }
    }
}

/// The body's last `u16` is below bit 15: it is not compressed.
pub open spec fn is_raw(b: Seq<u8>) -> bool {
    let p = payload_of(b);
    le_value(p.subrange(p.len() - 2, p.len() as int)) < 0x8000
}

pub proof fn lemma_restarts_len(es: Seq<Rec>, r: int)
    requires
        0 <= r,
    ensures
        restarts_bytes(es, r).len() == 2 * r,
    decreases r,
{
    broadcast use lemma_le_bytes_len;

    if r > 0 {
        lemma_restarts_len(es, r - 1);
    }
}

/// The parts of a body.
pub proof fn lemma_body_parts(es: Seq<Rec>, block: int)
    requires
        group_ok(es, block),
    ensures
        ({
            let b = body_of(es, block - 4);
            let rc = restart_count(es.len() as int);
            let end = block - 4 - (2 * rc + 2);
            &&& b.len() == block - 4
            &&& 1 <= rc <= MAX_RESTARTS
            &&& 0 < ents_len(es) <= end
            &&& b.take(end) == ents_bytes(es) + zeros(end - ents_len(es))
            &&& le_value(b.subrange(block - 6, block - 4)) == rc
            &&& restart_tail(es).len() == 2 * rc + 2
            &&& b.subrange(end, block - 6) == restarts_bytes(es, rc)
            &&& ents_bytes(es).len() == ents_len(es)
        }),
{
    broadcast use lemma_le_bytes_len;

    let b = body_of(es, block - 4);
    let rc = restart_count(es.len() as int);
    let end = block - 4 - (2 * rc + 2);
    lemma_ents_bytes_len(es);
    lemma_restarts_len(es, rc);
    lemma_pow256();
    lemma_le_roundtrip(rc as nat, 2);
    lemma_entry_at(es, 0, Seq::empty());
    assert(es.take(0) =~= Seq::<Rec>::empty());
    assert(b.take(end) =~= ents_bytes(es) + zeros(end - ents_len(es)));
    assert(b.subrange(block - 6, block - 4) =~= le_bytes(rc as nat, 2));
    assert(b.subrange(end, block - 6) =~= restarts_bytes(es, rc));
}

/// A data block verifies and its logical body is that of its entries.
pub proof fn law_data_block_reads_back(b: Seq<u8>, es: Seq<Rec>, block: int)
    requires
        group_ok(es, block),
        is_data_block(b, es, block),
    ensures
        b.len() == block,
        crc_ok(b),
        logical_of(b) == Some(body_of(es, block - 4)),
{
    broadcast use lemma_le_bytes_len;

    let body = body_of(es, block - 4);
    lemma_body_parts(es, block);
    lemma_sealed(body);
    let n = block - 4;
    assert(body.subrange(n - 2, n) == body.subrange(block - 6, block - 4));
    if lz_worth(body) {
        let enc = lz_encode(body);
        let p = lz_body(body);
        lemma_sealed(p);
        lemma_pow256();
        lemma_le_roundtrip((0x8000 + enc.len()) as nat, 2);
        assert(p.len() == n);
        assert(p.subrange(n - 2, n) =~= le_bytes((0x8000 + enc.len()) as nat, 2));
        assert(p.take(enc.len() as int) =~= enc);
        law_lz_roundtrip(body);
    }
}

/// The entries in `s`, up to zero padding or the end; `None` when anything
/// else follows the last of them.
pub open spec fn entries_in(s: Seq<u8>) -> Option<Seq<Rec>>
    decreases s.len(),
{
    match ent_parse(s) {
        Some((e, n)) => {
            if n == 0 || n > s.len() {
                None
            } else {
                match entries_in(s.skip(n as int)) {
                    None => None,
                    Some(es) => Some(seq![e] + es),
                }
            }
        },
        None => if all_zeros(s) {
            Some(Seq::empty())
        } else {
            None
        },
    }
}

/// The byte offset where the entries of a logical body end: the start of
/// its restart tail.
pub open spec fn entries_end(body: Seq<u8>) -> Option<int> {
    let n = body.len() as int;
    let tail = 2 + 2 * le_value(body.subrange(n - 2, n)) as int;
    if tail > n {
        None
    } else {
        Some(n - tail)
    }
}

/// The entries of a logical body.
pub open spec fn body_entries(body: Seq<u8>) -> Option<Seq<Rec>> {
    match entries_end(body) {
        None => None,
        Some(end) => entries_in(body.take(end)),
    }
}

pub proof fn lemma_entries_in(es: Seq<Rec>, gap: int)
    requires
        ents_ok(es),
        0 <= gap,
    ensures
        entries_in(ents_bytes(es) + zeros(gap)) == Some(es),
    decreases es.len(),
{
    let s = ents_bytes(es) + zeros(gap);
    if es.len() == 0 {
        assert(s =~= zeros(gap));
        lemma_zeros_no_entry(s);
        assert(es =~= Seq::<Rec>::empty());
    } else {
        lemma_entry_at(es, 0, zeros(gap));
        assert(es.take(0) =~= Seq::<Rec>::empty());
        assert(s.skip(0) =~= s);
        lemma_ents_split(es, 1);
        lemma_ents_bytes_len(es.take(1));
        let n = ent_len(es[0]) as int;
        assert(es.take(1).drop_last() =~= Seq::<Rec>::empty());
        assert(ents_len(es.take(1)) == n) by {
            reveal_with_fuel(ents_len, 2);
        }
        assert(s.skip(n) =~= ents_bytes(es.skip(1)) + zeros(gap));
        lemma_entries_in(es.skip(1), gap);
        assert(es =~= seq![es[0]] + es.skip(1));
    }
}

/// The entries of a written body are those written.
pub proof fn law_body_entries(es: Seq<Rec>, block: int)
    requires
        group_ok(es, block),
    ensures
        body_entries(body_of(es, block - 4)) == Some(es),
        entries_end(body_of(es, block - 4)) == Some(
            block - 4 - (2 * restart_count(es.len() as int) + 2),
        ),
{
    lemma_body_parts(es, block);
    let rc = restart_count(es.len() as int);
    let end = block - 4 - (2 * rc + 2);
    lemma_entries_in(es, end - ents_len(es));
}

// ---------------------------------------------------------------------
// Range tombstones.

/// One range tombstone: every key in `[start, end)` is deleted as of `seq`.
pub struct RdelV {
    pub start: Seq<u8>,
    pub end: Seq<u8>,
    pub seq: u64,
}

/// A table can store the tombstone.
pub open spec fn rdel_ok(r: RdelV) -> bool {
    1 <= r.start.len() <= 0xFFFF && 1 <= r.end.len() <= 0xFFFF
}

/// Bytes a tombstone takes.
pub open spec fn rdel_len(r: RdelV) -> nat {
    12 + r.start.len() + r.end.len()
}

/// The bytes of a tombstone.
#[verifier::opaque]
pub open spec fn rdel_bytes(r: RdelV) -> Seq<u8> {
    le_bytes(r.start.len(), 2) + le_bytes(r.end.len(), 2) + le_bytes(r.seq as nat, 8) + r.start
        + r.end
}

/// The tombstone at the start of `s`, and its length; `None` when it is cut
/// off or has an empty bound.
pub open spec fn rdel_parse(s: Seq<u8>) -> Option<(RdelV, nat)> {
    if s.len() < 12 {
        None
    } else {
        let sl = le_value(s.subrange(0, 2)) as int;
        let el = le_value(s.subrange(2, 4)) as int;
        if sl == 0 || el == 0 || 12 + sl + el > s.len() {
            None
        } else {
            Some(
                (
                    RdelV {
                        start: s.subrange(12, 12 + sl),
                        end: s.subrange(12 + sl, 12 + sl + el),
                        seq: le_value(s.subrange(4, 12)) as u64,
                    },
                    (12 + sl + el) as nat,
                ),
            )
        }
    }
}

/// A stored tombstone reads back, whatever follows it.
pub proof fn law_rdel_roundtrip(r: RdelV, rest: Seq<u8>)
    requires
        rdel_ok(r),
    ensures
        rdel_bytes(r).len() == rdel_len(r),
        rdel_parse(rdel_bytes(r) + rest) == Some((r, rdel_len(r))),
{
    broadcast use lemma_le_bytes_len;

    reveal(rdel_bytes);
    lemma_pow256();
    let s = rdel_bytes(r) + rest;
    let sl = r.start.len() as int;
    let el = r.end.len() as int;
    lemma_le_roundtrip(r.start.len(), 2);
    lemma_le_roundtrip(r.end.len(), 2);
    lemma_le_roundtrip(r.seq as nat, 8);
    assert(s.subrange(0, 2) =~= le_bytes(r.start.len(), 2));
    assert(s.subrange(2, 4) =~= le_bytes(r.end.len(), 2));
    assert(s.subrange(4, 12) =~= le_bytes(r.seq as nat, 8));
    assert(s.subrange(12, 12 + sl) =~= r.start);
    assert(s.subrange(12 + sl, 12 + sl + el) =~= r.end);
}

/// The bytes of tombstones one after the other.
pub open spec fn rdels_bytes(rs: Seq<RdelV>) -> Seq<u8>
    decreases rs.len(),
{
    if rs.len() == 0 {
        Seq::empty()
    } else {
        rdels_bytes(rs.drop_last()) + rdel_bytes(rs.last())
    }
}

/// Bytes tombstones take.
pub open spec fn rdels_len(rs: Seq<RdelV>) -> nat
    decreases rs.len(),
{
    if rs.len() == 0 {
        0
    } else {
        rdels_len(rs.drop_last()) + rdel_len(rs.last())
    }
}

/// Every tombstone can be stored.
pub open spec fn rdels_ok(rs: Seq<RdelV>) -> bool {
    forall|i: int| 0 <= i < rs.len() ==> rdel_ok(#[trigger] rs[i])
}

/// The tombstones fit one rdel block.
pub open spec fn rgroup_ok(rs: Seq<RdelV>, block: int) -> bool {
    &&& 1 <= rs.len() <= 0x7FFF
    &&& rdels_ok(rs)
    &&& rdels_len(rs) + RDEL_TRAILER <= block
}

/// An rdel block.
pub open spec fn rdel_block(rs: Seq<RdelV>, block: int) -> Seq<u8> {
    sealed(padded(rdels_bytes(rs), (block - RDEL_TRAILER) as nat) + le_bytes(rs.len(), 2))
}

/// `n` tombstones from the start of `s` on.
pub open spec fn rdels_in(s: Seq<u8>, n: nat) -> Option<Seq<RdelV>>
    decreases n,
{
    if n == 0 {
        Some(Seq::empty())
    } else {
        match rdel_parse(s) {
            None => None,
            Some((r, len)) => match rdels_in(s.skip(len as int), (n - 1) as nat) {
                None => None,
                Some(rs) => Some(seq![r] + rs),
            },
        }
    }
}

/// The stored count of an rdel block; `None` when the block does not verify
/// or bit 15 of the count is set.
pub open spec fn rdel_count(b: Seq<u8>) -> Option<nat> {
    let n = b.len() as int;
    let raw = le_value(b.subrange(n - 6, n - 4));
    if crc_ok(b) && raw < 0x8000 {
        Some(raw)
    } else {
        None
    }
}

/// The tombstones of an rdel block.
pub open spec fn rdel_list(b: Seq<u8>) -> Option<Seq<RdelV>> {
    match rdel_count(b) {
        None => None,
        Some(n) => rdels_in(b, n),
    }
}

pub proof fn lemma_rdels_bytes_len(rs: Seq<RdelV>)
    requires
        rdels_ok(rs),
    ensures
        rdels_bytes(rs).len() == rdels_len(rs),
    decreases rs.len(),
{
    if rs.len() > 0 {
        assert(rdels_ok(rs.drop_last())) by {
            assert forall|i: int| 0 <= i < rs.drop_last().len() implies rdel_ok(
                #[trigger] rs.drop_last()[i],
            ) by {
                assert(rdel_ok(rs[i]));
            }
        }
        lemma_rdels_bytes_len(rs.drop_last());
        assert(rdel_ok(rs.last()));
        law_rdel_roundtrip(rs.last(), Seq::empty());
    }
}

proof fn lemma_rdels_front(rs: Seq<RdelV>)
    requires
        rs.len() > 0,
    ensures
        rdels_bytes(rs) == rdel_bytes(rs[0]) + rdels_bytes(rs.skip(1)),
    decreases rs.len(),
{
    if rs.len() == 1 {
        assert(rs.drop_last() =~= Seq::<RdelV>::empty());
        assert(rs.skip(1) =~= Seq::<RdelV>::empty());
        assert(rdels_bytes(rs.drop_last()) =~= Seq::<u8>::empty());
        assert(rdels_bytes(rs) =~= rdel_bytes(rs[0]) + rdels_bytes(rs.skip(1)));
    } else {
        lemma_rdels_front(rs.drop_last());
        assert(rs.drop_last().skip(1) =~= rs.skip(1).drop_last());
        assert(rs.skip(1).last() == rs.last());
        assert(rdels_bytes(rs) =~= rdel_bytes(rs[0]) + rdels_bytes(rs.skip(1)));
    }
}

pub proof fn lemma_rdels_in(rs: Seq<RdelV>, rest: Seq<u8>)
    requires
        rdels_ok(rs),
    ensures
        rdels_in(rdels_bytes(rs) + rest, rs.len()) == Some(rs),
    decreases rs.len(),
{
    if rs.len() == 0 {
        assert(rs =~= Seq::<RdelV>::empty());
    } else {
        lemma_rdels_front(rs);
        let tail = rdels_bytes(rs.skip(1)) + rest;
        assert(rdels_bytes(rs) + rest =~= rdel_bytes(rs[0]) + tail);
        assert(rdel_ok(rs[0]));
        law_rdel_roundtrip(rs[0], tail);
        assert((rdel_bytes(rs[0]) + tail).skip(rdel_len(rs[0]) as int) =~= tail);
        assert(rdels_ok(rs.skip(1))) by {
            assert forall|i: int| 0 <= i < rs.skip(1).len() implies rdel_ok(
                #[trigger] rs.skip(1)[i],
            ) by {
                assert(rdel_ok(rs[i + 1]));
            }
        }
        lemma_rdels_in(rs.skip(1), rest);
        assert(rs =~= seq![rs[0]] + rs.skip(1));
    }
}

/// The tombstones of a written rdel block are those written.
pub proof fn law_rdel_block_reads_back(rs: Seq<RdelV>, block: int)
    requires
        rgroup_ok(rs, block),
    ensures
        rdel_block(rs, block).len() == block,
        rdel_list(rdel_block(rs, block)) == Some(rs),
{
    broadcast use lemma_le_bytes_len;

    let p = padded(rdels_bytes(rs), (block - RDEL_TRAILER) as nat) + le_bytes(rs.len(), 2);
    let b = rdel_block(rs, block);
    lemma_rdels_bytes_len(rs);
    lemma_sealed(p);
    lemma_pow256();
    lemma_le_roundtrip(rs.len(), 2);
    assert(b.len() == block);
    assert(b.subrange(block - 6, block - 4) =~= le_bytes(rs.len(), 2));
    let rest = b.skip(rdels_len(rs) as int);
    assert(b =~= rdels_bytes(rs) + rest);
    lemma_rdels_in(rs, rest);
}

// ---------------------------------------------------------------------
// Index and footer.

/// The highest sequence of a group.
pub open spec fn group_top(es: Seq<Rec>) -> u64
    decreases es.len(),
{
    if es.len() == 0 {
        0
    } else {
        let t = group_top(es.drop_last());
        if es.last().seq > t {
            es.last().seq
        } else {
            t
        }
    }
}

/// The lowest sequence of a group.
pub open spec fn group_low(es: Seq<Rec>) -> u64
    decreases es.len(),
{
    if es.len() == 0 {
        u64::MAX
    } else {
        let t = group_low(es.drop_last());
        if es.last().seq < t {
            es.last().seq
        } else {
            t
        }
    }
}

/// One index entry.
#[verifier::opaque]
pub open spec fn idx_bytes(first: Seq<u8>, id: u64, top: u64) -> Seq<u8> {
    le_bytes(first.len(), 2) + first + le_bytes(id as nat, 8) + le_bytes(top as nat, 8)
}

/// The index entries of the first `n` blocks of a table at `base`.
pub open spec fn index_bytes(groups: Seq<Seq<Rec>>, base: u64, n: int) -> Seq<u8>
    decreases n,
{
    if n <= 0 {
        Seq::empty()
    } else {
        index_bytes(groups, base, n - 1) + idx_bytes(
            groups[n - 1][0].key,
            (base + n - 1) as u64,
            group_top(groups[n - 1]),
        )
    }
}

/// The index entry at the start of `s`: first key, block id, length. `None`
/// when it is cut off or its key is empty, as in padding.
pub open spec fn idx_parse(s: Seq<u8>) -> Option<(Seq<u8>, u64, nat)> {
    if s.len() < 2 {
        None
    } else {
        let kl = le_value(s.subrange(0, 2)) as int;
        if kl == 0 || 18 + kl > s.len() {
            None
        } else {
            Some(
                (
                    s.subrange(2, 2 + kl),
                    le_value(s.subrange(2 + kl, 10 + kl)) as u64,
                    (18 + kl) as nat,
                ),
            )
        }
    }
}

/// The first keys and block ids of an index; `None` when something other
/// than padding follows the last entry.
pub open spec fn index_list(s: Seq<u8>) -> Option<Seq<(Seq<u8>, u64)>>
    decreases s.len(),
{
    match idx_parse(s) {
        Some((key, id, n)) => {
            if n == 0 || n > s.len() {
                None
            } else {
                match index_list(s.skip(n as int)) {
                    None => None,
                    Some(rest) => Some(seq![(key, id)] + rest),
                }
            }
        },
        None => if all_zeros(s) {
            Some(Seq::empty())
        } else {
            None
        },
    }
}

/// The index a table's groups have.
pub open spec fn index_of(groups: Seq<Seq<Rec>>, base: u64) -> Seq<(Seq<u8>, u64)> {
    Seq::new(groups.len(), |i: int| (groups[i][0].key, (base + i) as u64))
}

/// The bytes of index entries from the front.
spec fn index_suffix(groups: Seq<Seq<Rec>>, base: u64, i: int) -> Seq<u8>
    decreases groups.len() - i,
{
    if i >= groups.len() || i < 0 {
        Seq::empty()
    } else {
        idx_bytes(groups[i][0].key, (base + i) as u64, group_top(groups[i])) + index_suffix(
            groups,
            base,
            i + 1,
        )
    }
}

proof fn lemma_index_suffix(groups: Seq<Seq<Rec>>, base: u64, i: int)
    requires
        0 <= i <= groups.len(),
    ensures
        index_bytes(groups, base, groups.len() as int) == index_bytes(groups, base, i)
            + index_suffix(groups, base, i),
    decreases groups.len() - i,
{
    if i < groups.len() {
        lemma_index_suffix(groups, base, i + 1);
        assert(index_bytes(groups, base, i) + index_suffix(groups, base, i) =~= index_bytes(
            groups,
            base,
            i + 1,
        ) + index_suffix(groups, base, i + 1));
    } else {
        assert(index_bytes(groups, base, i) + Seq::<u8>::empty() =~= index_bytes(groups, base, i));
    }
}

pub proof fn lemma_idx_roundtrip(first: Seq<u8>, id: u64, top: u64, rest: Seq<u8>)
    requires
        1 <= first.len() <= 0xFFFF,
    ensures
        idx_bytes(first, id, top).len() == 18 + first.len(),
        idx_parse(idx_bytes(first, id, top) + rest) == Some((first, id, 18 + first.len())),
{
    broadcast use lemma_le_bytes_len;

    reveal(idx_bytes);
    lemma_pow256();
    let s = idx_bytes(first, id, top) + rest;
    let kl = first.len() as int;
    lemma_le_roundtrip(first.len(), 2);
    lemma_le_roundtrip(id as nat, 8);
    assert(s.subrange(0, 2) =~= le_bytes(first.len(), 2));
    assert(s.subrange(2, 2 + kl) =~= first);
    assert(s.subrange(2 + kl, 10 + kl) =~= le_bytes(id as nat, 8));
}

/// Every group starts with a storable entry.
pub open spec fn groups_lead(groups: Seq<Seq<Rec>>) -> bool {
    forall|i: int|
        0 <= i < groups.len() ==> (#[trigger] groups[i]).len() >= 1 && ent_ok(groups[i][0])
}

proof fn lemma_index_list_from(groups: Seq<Seq<Rec>>, base: u64, i: int, gap: int)
    requires
        groups_lead(groups),
        0 <= i <= groups.len(),
        0 <= gap,
    ensures
        index_list(index_suffix(groups, base, i) + zeros(gap)) == Some(
            index_of(groups, base).skip(i),
        ),
    decreases groups.len() - i,
{
    let s = index_suffix(groups, base, i) + zeros(gap);
    let l = index_of(groups, base);
    if i == groups.len() {
        assert(s =~= zeros(gap));
        assert(idx_parse(s) is None) by {
            if s.len() >= 2 {
                assert(s.subrange(0, 2) =~= le_bytes(0, 2)) by {
                    reveal_with_fuel(le_bytes, 3);
                }
                lemma_pow256();
                lemma_le_roundtrip(0, 2);
            }
        }
        assert(all_zeros(s));
        assert(l.skip(i) =~= Seq::<(Seq<u8>, u64)>::empty());
    } else {
        let first = groups[i][0].key;
        let id = (base + i) as u64;
        let rest = index_suffix(groups, base, i + 1) + zeros(gap);
        assert(ent_ok(groups[i][0]));
        lemma_idx_roundtrip(first, id, group_top(groups[i]), rest);
        assert(s =~= idx_bytes(first, id, group_top(groups[i])) + rest);
        assert(s.skip(18 + first.len() as int) =~= rest);
        lemma_index_list_from(groups, base, i + 1, gap);
        assert(l.skip(i) =~= seq![(first, id)] + l.skip(i + 1));
    }
}

/// A written index lists the groups' first keys and block ids.
pub proof fn law_index_reads_back(groups: Seq<Seq<Rec>>, base: u64, size: nat)
    requires
        groups_lead(groups),
        index_bytes(groups, base, groups.len() as int).len() <= size,
    ensures
        index_list(padded(index_bytes(groups, base, groups.len() as int), size)) == Some(
            index_of(groups, base),
        ),
{
    let all = index_bytes(groups, base, groups.len() as int);
    lemma_index_suffix(groups, base, 0);
    assert(all =~= index_suffix(groups, base, 0));
    let gap = size - all.len();
    assert(padded(all, size) =~= index_suffix(groups, base, 0) + zeros(gap));
    lemma_index_list_from(groups, base, 0, gap);
    assert(index_of(groups, base).skip(0) =~= index_of(groups, base));
}

/// A footer's fields.
#[verifier::ext_equal]
pub struct FootV {
    pub index_block: u64,
    pub bloom_block: u64,
    pub entry_count: u64,
    pub k: u8,
    pub rdel_blocks: u32,
    pub min_seq: u64,
}

/// The bytes of a footer's fields.
#[verifier::opaque]
pub open spec fn foot_bytes(f: FootV) -> Seq<u8> {
    le_bytes(SSTABLE_MAGIC as nat, 8) + le_bytes(f.index_block as nat, 8) + le_bytes(
        f.bloom_block as nat,
        8,
    ) + le_bytes(f.entry_count as nat, 8) + seq![f.k] + le_bytes(f.rdel_blocks as nat, 4)
        + le_bytes(f.min_seq as nat, 8)
}

/// A footer block.
pub open spec fn foot_block(f: FootV, block: int) -> Seq<u8> {
    sealed(padded(foot_bytes(f), (block - 4) as nat))
}

/// The footer of a block; `None` when the block does not verify or its magic
/// is wrong.
pub open spec fn foot_of(b: Seq<u8>) -> Option<FootV> {
    if !crc_ok(b) || b.len() < FOOTER_LEN || le_value(b.subrange(0, 8)) != SSTABLE_MAGIC {
        None
    } else {
        Some(
            FootV {
                index_block: le_value(b.subrange(8, 16)) as u64,
                bloom_block: le_value(b.subrange(16, 24)) as u64,
                entry_count: le_value(b.subrange(24, 32)) as u64,
                k: b[32],
                rdel_blocks: le_value(b.subrange(33, 37)) as u32,
                min_seq: le_value(b.subrange(37, 45)) as u64,
            },
        )
    }
}

/// A written footer reads back.
pub proof fn law_footer_reads_back(f: FootV, block: int)
    requires
        block >= FOOTER_LEN + 4,
    ensures
        foot_bytes(f).len() == FOOTER_LEN,
        foot_block(f, block).len() == block,
        foot_of(foot_block(f, block)) == Some(f),
{
    broadcast use lemma_le_bytes_len;

    reveal(foot_bytes);
    lemma_pow256();
    let p = padded(foot_bytes(f), (block - 4) as nat);
    let b = foot_block(f, block);
    lemma_sealed(p);
    lemma_le_roundtrip(SSTABLE_MAGIC as nat, 8);
    lemma_le_roundtrip(f.index_block as nat, 8);
    lemma_le_roundtrip(f.bloom_block as nat, 8);
    lemma_le_roundtrip(f.entry_count as nat, 8);
    lemma_le_roundtrip(f.rdel_blocks as nat, 4);
    lemma_le_roundtrip(f.min_seq as nat, 8);
    assert(b.subrange(0, 8) =~= le_bytes(SSTABLE_MAGIC as nat, 8));
    assert(b.subrange(8, 16) =~= le_bytes(f.index_block as nat, 8));
    assert(b.subrange(16, 24) =~= le_bytes(f.bloom_block as nat, 8));
    assert(b.subrange(24, 32) =~= le_bytes(f.entry_count as nat, 8));
    assert(b[32] == f.k);
    assert(b.subrange(33, 37) =~= le_bytes(f.rdel_blocks as nat, 4));
    assert(b.subrange(37, 45) =~= le_bytes(f.min_seq as nat, 8));
}

} // verus!

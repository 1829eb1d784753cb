//! Append-only write-ahead log with CRC-framed records.
//!
//! Record layout (all little-endian):
//!
//! ```text
//! magic: u16 = 0x6C73 | len: u32 | seq: u64 | op: u8 | key_len: u16
//! | val_len: u16 | key | val | [expire_at: u64] | crc32: u32
//! ```
//!
//! `expire_at` is present exactly for [`Op::PutTtl`]. `len` covers
//! everything from `seq` through `crc32` inclusive, and `crc32` covers
//! everything after `magic` except itself. Records never span blocks.
//! Recovery replays records in order and stops at the first
//! corrupt/truncated record: the torn tail is the expected crash boundary,
//! not an error.

use vstd::prelude::*;

use crate::bytes::{
    copy_into, le_bytes, le_value, lemma_le_bytes_len, lemma_le_roundtrip, lemma_pow256,
    lemma_splice_append, lemma_splice_index, lemma_splice_read, load_le, spliced, store_le,
    zero_fill,
};
use crate::crc::{crc32, crc32_of};
use crate::device::{lemma_synced_on, lemma_synced_wider, synced_outside, BlockDevice};
use crate::error::Error;
use crate::memtable::{
    arena_used, key_sorted, law_with_rec_keeps_order, lemma_lower, lemma_top_insert, lower,
    point_rec, range_rec, top_seq, with_rec, MemTable, Rec,
};

verus! {

/// Record magic: ASCII "ls".
pub const WAL_MAGIC: u16 = 0x6C73;

/// Fixed header bytes before the key: magic + len + seq + op + `key_len` +
/// `val_len`.
pub const WAL_HEADER_LEN: usize = 19;

/// Trailing CRC32 bytes.
pub const WAL_TRAILER_LEN: usize = 4;

/// Total record overhead: header + trailer.
pub const WAL_RECORD_OVERHEAD: usize = 23;

/// Mutation kind stored in a WAL record or a table entry.
#[derive(Debug, Clone, Copy, PartialEq, Eq, Structural)]
pub enum Op {
    /// Insert or overwrite a key.
    Put,
    /// Delete a key (tombstone).
    Delete,
    /// Delete every key in `[key, val)`.
    RangeDelete,
    /// Insert or overwrite a key, with an absolute expiry tick.
    PutTtl,
}

impl Op {
    /// The op's wire byte.
    pub open spec fn byte(self) -> u8 {
        match self {
            Op::Put => 1,
            Op::Delete => 2,
            Op::RangeDelete => 3,
            Op::PutTtl => 4,
        }
    }

    /// The op of a wire byte.
    pub open spec fn of_byte(b: u8) -> Option<Op> {
        if b == 1 {
            Some(Op::Put)
        } else if b == 2 {
            Some(Op::Delete)
        } else if b == 3 {
            Some(Op::RangeDelete)
        } else if b == 4 {
            Some(Op::PutTtl)
        } else {
            None
        }
    }

    /// Every op decodes from its own wire byte, and no byte decodes to two.
    pub proof fn law_op_roundtrip(self, b: u8)
        ensures
            Op::of_byte(self.byte()) == Some(self),
            Op::of_byte(b) == Some(self) ==> b == self.byte(),
    {
    }

    /// Encodes the op as its wire byte.
    #[must_use]
    pub fn to_u8(self) -> (r: u8)
        ensures
            r == self.byte(),
    {
        match self {
            Op::Put => 1,
            Op::Delete => 2,
            Op::RangeDelete => 3,
            Op::PutTtl => 4,
        }
    }

    /// Decodes a wire byte; unknown values return `None`.
    #[must_use]
    pub fn from_u8(byte: u8) -> (r: Option<Self>)
        ensures
            r == Op::of_byte(byte),
    {
        match byte {
            1 => Some(Op::Put),
            2 => Some(Op::Delete),
            3 => Some(Op::RangeDelete),
            4 => Some(Op::PutTtl),
            _ => None,
        }
    }
}

// ---------------------------------------------------------------------
// The log format.

/// One logged mutation.
pub struct WalRec {
    pub seq: u64,
    pub op: Op,
    pub key: Seq<u8>,
    pub val: Seq<u8>,
    /// Expiry tick of a [`Op::PutTtl`], 0 otherwise.
    pub expire_at: u64,
}

/// Expiry bytes of a record.
pub open spec fn ttl_len(op: Op) -> nat {
    if op == Op::PutTtl {
        8
    } else {
        0
    }
}

/// Encoded length of a record.
pub open spec fn rec_len(r: WalRec) -> nat {
    23 + r.key.len() + r.val.len() + ttl_len(r.op)
}

/// What a record can hold.
pub open spec fn rec_valid(r: WalRec) -> bool {
    &&& r.key.len() <= 0xFFFF
    &&& r.val.len() <= 0xFFFF
    &&& r.op != Op::PutTtl ==> r.expire_at == 0
}

/// The bytes the CRC of a record covers: everything after the magic.
#[verifier::opaque]
pub open spec fn rec_body(r: WalRec) -> Seq<u8> {
    le_bytes((rec_len(r) - 6) as nat, 4) + le_bytes(r.seq as nat, 8) + seq![r.op.byte()] + le_bytes(
        r.key.len(),
        2,
    ) + le_bytes(r.val.len(), 2) + r.key + r.val + le_bytes(r.expire_at as nat, ttl_len(r.op))
}

/// The bytes of a record.
#[verifier::opaque]
pub open spec fn rec_bytes(r: WalRec) -> Seq<u8> {
    le_bytes(WAL_MAGIC as nat, 2) + rec_body(r) + le_bytes(crc32_of(rec_body(r)) as nat, 4)
}

/// The record at the start of `s` and its length; `None` for anything that
/// is not a fully intact, CRC-valid record.
pub open spec fn rec_parse(s: Seq<u8>) -> Option<(WalRec, nat)> {
    if s.len() < 19 || le_value(s.subrange(0, 2)) != WAL_MAGIC {
        None
    } else {
        let len = le_value(s.subrange(2, 6));
        if len + 6 > s.len() {
            None
        } else {
            match Op::of_byte(s[14]) {
                None => None,
                Some(op) => {
                    let kl = le_value(s.subrange(15, 17)) as int;
                    let vl = le_value(s.subrange(17, 19)) as int;
                    let ttl = ttl_len(op) as int;
                    let end = 19 + kl + vl + ttl;
                    if 17 + kl + vl + ttl != len {
                        None
                    } else if le_value(s.subrange(end, end + 4)) != crc32_of(s.subrange(2, end)) {
                        None
                    } else {
                        Some(
                            (
                                WalRec {
                                    seq: le_value(s.subrange(6, 14)) as u64,
                                    op,
                                    key: s.subrange(19, 19 + kl),
                                    val: s.subrange(19 + kl, 19 + kl + vl),
                                    expire_at: le_value(s.subrange(19 + kl + vl, end)) as u64,
                                },
                                len + 6,
                            ),
                        )
                    }
                },
            }
        }
    }
}

/// Every byte is zero.
pub open spec fn all_zeros(s: Seq<u8>) -> bool {
    forall|i: int| 0 <= i < s.len() ==> #[trigger] s[i] == 0
}

/// The records of a block in order, and whether they end in something that
/// is neither a record nor zero padding.
pub open spec fn block_records(s: Seq<u8>) -> (Seq<WalRec>, bool)
    decreases s.len(),
{
    if all_zeros(s) {
        (Seq::empty(), false)
    } else {
        match rec_parse(s) {
            None => (Seq::empty(), true),
            Some((r, n)) => {
                let rest = block_records(s.skip(n as int));
                (seq![r] + rest.0, rest.1)
            },
        }
    }
}

/// Parsing a record written in front of anything gives the record back.
pub proof fn law_record_roundtrip(r: WalRec, rest: Seq<u8>)
    requires
        rec_valid(r),
    ensures
        rec_parse(rec_bytes(r) + rest) == Some((r, rec_len(r))),
        rec_bytes(r).len() == rec_len(r),
        !all_zeros(rec_bytes(r) + rest),
{
    reveal(rec_body);
    reveal(rec_bytes);
    let s = rec_bytes(r) + rest;
    let kl = r.key.len() as int;
    let vl = r.val.len() as int;
    let ttl = ttl_len(r.op) as int;
    let end = 19 + kl + vl + ttl;
    let len = (rec_len(r) - 6) as nat;
    let crc = crc32_of(rec_body(r));
    lemma_pow256();
    lemma_le_roundtrip(WAL_MAGIC as nat, 2);
    lemma_le_roundtrip(len, 4);
    lemma_le_roundtrip(r.seq as nat, 8);
    lemma_le_roundtrip(r.key.len(), 2);
    lemma_le_roundtrip(r.val.len(), 2);
    lemma_le_roundtrip(r.expire_at as nat, ttl_len(r.op));
    lemma_le_roundtrip(crc as nat, 4);
    assert(s.subrange(0, 2) =~= le_bytes(WAL_MAGIC as nat, 2));
    assert(s.subrange(2, 6) =~= le_bytes(len, 4));
    assert(s.subrange(6, 14) =~= le_bytes(r.seq as nat, 8));
    assert(s[14] == r.op.byte());
    assert(s.subrange(15, 17) =~= le_bytes(r.key.len(), 2));
    assert(s.subrange(17, 19) =~= le_bytes(r.val.len(), 2));
    assert(s.subrange(19, 19 + kl) =~= r.key);
    assert(s.subrange(19 + kl, 19 + kl + vl) =~= r.val);
    assert(s.subrange(19 + kl + vl, end) =~= le_bytes(r.expire_at as nat, ttl_len(r.op)));
    assert(s.subrange(2, end) =~= rec_body(r));
    assert(s.subrange(end, end + 4) =~= le_bytes(crc as nat, 4));
    r.op.law_op_roundtrip(0);
    if all_zeros(s) {
        let m = le_bytes(WAL_MAGIC as nat, 2);
        assert(m[0] == s[0] && m[1] == s[1]);
        reveal_with_fuel(le_bytes, 3);
        assert(m[0] == 0x73) by {
            assert((0x6C73nat % 256) as u8 == 0x73u8);
        }
    }
}

/// The records of `rs` one after the other.
pub open spec fn log_bytes(rs: Seq<WalRec>) -> Seq<u8>
    decreases rs.len(),
{
    if rs.len() == 0 {
        Seq::empty()
    } else {
        rec_bytes(rs[0]) + log_bytes(rs.skip(1))
    }
}

/// `s` filled up with zeros to `n` bytes.
pub open spec fn padded(s: Seq<u8>, n: nat) -> Seq<u8> {
    s + Seq::new((n - s.len()) as nat, |i: int| 0u8)
}

/// A block of committed records replays as exactly those records, with
/// nothing torn behind them.
pub proof fn law_committed_block_replays(rs: Seq<WalRec>, n: nat)
    requires
        forall|i: int| 0 <= i < rs.len() ==> rec_valid(#[trigger] rs[i]),
        log_bytes(rs).len() <= n,
    ensures
        block_records(padded(log_bytes(rs), n)) == (rs, false),
    decreases rs.len(),
{
    let s = padded(log_bytes(rs), n);
    if rs.len() == 0 {
        assert(rs =~= Seq::<WalRec>::empty());
        assert(all_zeros(s));
    } else {
        let head = rec_bytes(rs[0]);
        let tail = log_bytes(rs.skip(1));
        let rest = padded(tail, (n - head.len()) as nat);
        assert(rec_valid(rs[0]));
        assert forall|i: int| 0 <= i < rs.skip(1).len() implies rec_valid(
            #[trigger] rs.skip(1)[i],
        ) by {
            assert(rec_valid(rs[i + 1]));
        }
        law_committed_block_replays(rs.skip(1), (n - head.len()) as nat);
        law_record_roundtrip(rs[0], rest);
        assert(s =~= head + rest);
        assert(s.skip(head.len() as int) =~= rest);
        assert(rs =~= seq![rs[0]] + rs.skip(1));
    }
}

/// A block torn behind some of its records replays as those records: the
/// tail, neither zeros nor a record, gives none, and shows that the block is
/// torn.
pub proof fn law_torn_block_replays(rs: Seq<WalRec>, tail: Seq<u8>)
    requires
        forall|i: int| 0 <= i < rs.len() ==> rec_valid(#[trigger] rs[i]),
        !all_zeros(tail),
        rec_parse(tail) is None,
    ensures
        block_records(log_bytes(rs) + tail) == (rs, true),
    decreases rs.len(),
{
    let s = log_bytes(rs) + tail;
    if rs.len() == 0 {
        assert(rs =~= Seq::<WalRec>::empty());
        assert(s =~= tail);
    } else {
        let head = rec_bytes(rs[0]);
        let rest = log_bytes(rs.skip(1)) + tail;
        assert(rec_valid(rs[0]));
        assert forall|i: int| 0 <= i < rs.skip(1).len() implies rec_valid(
            #[trigger] rs.skip(1)[i],
        ) by {
            assert(rec_valid(rs[i + 1]));
        }
        law_torn_block_replays(rs.skip(1), tail);
        law_record_roundtrip(rs[0], rest);
        assert(s =~= head + rest);
        assert(s.skip(head.len() as int) =~= rest);
        assert(rs =~= seq![rs[0]] + rs.skip(1));
    }
}

// ---------------------------------------------------------------------
// Replay.

/// The memtable entry a logged mutation leaves.
pub open spec fn entry_of(r: WalRec) -> Rec {
    match r.op {
        Op::Put => point_rec(r.key, r.val, r.seq, false, 0),
        Op::Delete => point_rec(r.key, r.val, r.seq, true, 0),
        Op::RangeDelete => range_rec(r.key, r.val, r.seq),
        Op::PutTtl => point_rec(r.key, r.val, r.seq, false, r.expire_at),
    }
}

/// A logged mutation fits a memtable of the given shape that holds `t`.
pub open spec fn fits_table(
    t: Seq<Rec>,
    r: WalRec,
    cap: usize,
    arena: usize,
    key_max: usize,
    val_max: usize,
) -> bool {
    &&& 0 < r.key.len() <= key_max
    &&& r.op == Op::RangeDelete ==> r.val.len() <= key_max
    &&& r.op == Op::Put || r.op == Op::PutTtl ==> r.val.len() <= val_max
    &&& t.len() < cap
    &&& arena_used(t) + r.key.len() + (if r.op == Op::Delete {
        0
    } else {
        r.val.len()
    }) <= arena
}

/// What a replay of the log ends in.
pub struct Replay {
    /// The memtable entries.
    pub table: Seq<Rec>,
    /// Records replayed.
    pub records: nat,
    /// Highest sequence number seen, stale records counted.
    pub max_seq: u64,
    /// Blocks consumed.
    pub blocks: nat,
}

/// The larger of two sequence numbers.
pub open spec fn seq_max(a: u64, b: u64) -> u64 {
    if a > b {
        a
    } else {
        b
    }
}

/// Replays the records of one block onto `t`, skipping those at or below
/// `floor`. `None` when a record does not fit.
pub open spec fn replay_block(
    t: Seq<Rec>,
    rs: Seq<WalRec>,
    floor: u64,
    cap: usize,
    arena: usize,
    key_max: usize,
    val_max: usize,
) -> Option<Replay>
    decreases rs.len(),
{
    if rs.len() == 0 {
        Some(Replay { table: t, records: 0, max_seq: 0, blocks: 0 })
    } else {
        let r = rs[0];
        if r.seq > floor && !fits_table(t, r, cap, arena, key_max, val_max) {
            None
        } else {
            let t1 = if r.seq > floor {
                with_rec(t, entry_of(r))
            } else {
                t
            };
            match replay_block(t1, rs.skip(1), floor, cap, arena, key_max, val_max) {
                None => None,
                Some(p) => Some(
                    Replay {
                        table: p.table,
                        records: p.records + if r.seq > floor {
                            1nat
                        } else {
                            0nat
                        },
                        max_seq: seq_max(r.seq, p.max_seq),
                        blocks: 0,
                    },
                ),
            }
        }
    }
}

/// Replays the log from block `id` on: block by block, up to the first
/// block without a record, a torn block, or `end`. The error is the block
/// whose records did not fit.
pub open spec fn replay_log(
    c: Map<u64, Seq<u8>>,
    id: int,
    end: int,
    t: Seq<Rec>,
    floor: u64,
    cap: usize,
    arena: usize,
    key_max: usize,
    val_max: usize,
) -> Result<Replay, int>
    decreases end - id,
{
    let (rs, torn) = block_records(c[id as u64]);
    if id >= end || rs.len() == 0 {
        Ok(Replay { table: t, records: 0, max_seq: 0, blocks: 0 })
    } else {
        match replay_block(t, rs, floor, cap, arena, key_max, val_max) {
            None => Err(id),
            Some(p) => {
                if torn {
                    Ok(Replay { blocks: 1, ..p })
                } else {
                    match replay_log(c, id + 1, end, p.table, floor, cap, arena, key_max, val_max) {
                        Err(e) => Err(e),
                        Ok(q) => Ok(
                            Replay {
                                table: q.table,
                                records: p.records + q.records,
                                max_seq: seq_max(p.max_seq, q.max_seq),
                                blocks: q.blocks + 1,
                            },
                        ),
                    }
                }
            },
        }
    }
}

/// Block `i` of the log holds the records of `rss[i]`, as they are committed.
pub open spec fn logged(
    c: Map<u64, Seq<u8>>,
    id: int,
    rss: Seq<Seq<WalRec>>,
    i: int,
    block: nat,
) -> bool {
    &&& rss[i].len() > 0
    &&& log_bytes(rss[i]).len() <= block
    &&& forall|j: int| 0 <= j < rss[i].len() ==> rec_valid(#[trigger] rss[i][j])
    &&& c[(id + i) as u64] == padded(log_bytes(rss[i]), block)
}

/// All records, in the order in which they were committed.
pub open spec fn log_records(rss: Seq<Seq<WalRec>>) -> Seq<WalRec>
    decreases rss.len(),
{
    if rss.len() == 0 {
        Seq::empty()
    } else {
        rss[0] + log_records(rss.skip(1))
    }
}

/// Replaying records one block after the other is replaying them all.
proof fn lemma_replay_concat(
    t: Seq<Rec>,
    x: Seq<WalRec>,
    y: Seq<WalRec>,
    floor: u64,
    cap: usize,
    arena: usize,
    key_max: usize,
    val_max: usize,
)
    ensures
        replay_block(t, x + y, floor, cap, arena, key_max, val_max) == (match replay_block(
            t,
            x,
            floor,
            cap,
            arena,
            key_max,
            val_max,
        ) {
            None => None,
            Some(p) => match replay_block(p.table, y, floor, cap, arena, key_max, val_max) {
                None => None,
                Some(q) => Some(
                    Replay {
                        table: q.table,
                        records: p.records + q.records,
                        max_seq: seq_max(p.max_seq, q.max_seq),
                        blocks: 0,
                    },
                ),
            },
        }),
    decreases x.len(),
{
    if x.len() == 0 {
        assert(x + y =~= y);
        lemma_replay_blocks(t, y, floor, cap, arena, key_max, val_max);
    } else {
        let r = x[0];
        let t1 = if r.seq > floor {
            with_rec(t, entry_of(r))
        } else {
            t
        };
        assert((x + y).skip(1) =~= x.skip(1) + y);
        lemma_replay_concat(t1, x.skip(1), y, floor, cap, arena, key_max, val_max);
    }
}

proof fn lemma_replay_blocks(
    t: Seq<Rec>,
    rs: Seq<WalRec>,
    floor: u64,
    cap: usize,
    arena: usize,
    key_max: usize,
    val_max: usize,
)
    ensures
        replay_block(t, rs, floor, cap, arena, key_max, val_max) matches Some(p) ==> p.blocks == 0,
{
}

/// The log ends at block `at`: at the end of the region, at a block without
/// a record, or at a torn block.
pub open spec fn log_ends(c: Map<u64, Seq<u8>>, at: int, end: int) -> bool {
    ||| at == end
    ||| block_records(c[at as u64]).0.len() == 0
    ||| block_records(c[at as u64]).1
}

/// The records of the block that the log ends at.
pub open spec fn last_records(c: Map<u64, Seq<u8>>, at: int, end: int) -> Seq<WalRec> {
    if at == end {
        Seq::empty()
    } else {
        block_records(c[at as u64]).0
    }
}

/// The log gives back what was committed: a replay from the first block of
/// a run of commits takes every record committed, in order, onto the table.
/// It goes on to the end of the region, to a block without a record, or to a
/// torn block; the records in front of the tear are taken too, and their
/// block counts as used. Those at or below the floor are skipped; their
/// sequences count.
pub proof fn law_log_roundtrip(
    c: Map<u64, Seq<u8>>,
    id: int,
    end: int,
    rss: Seq<Seq<WalRec>>,
    t: Seq<Rec>,
    floor: u64,
    cap: usize,
    arena: usize,
    key_max: usize,
    val_max: usize,
    block: nat,
)
    requires
        0 <= id,
        id + rss.len() <= end <= u64::MAX,
        forall|i: int| 0 <= i < rss.len() ==> #[trigger] logged(c, id, rss, i, block),
        log_ends(c, id + rss.len(), end),
    ensures
        ({
            let last = last_records(c, id + rss.len(), end);
            match replay_block(t, log_records(rss) + last, floor, cap, arena, key_max, val_max) {
                None => replay_log(c, id, end, t, floor, cap, arena, key_max, val_max) is Err,
                Some(p) => replay_log(c, id, end, t, floor, cap, arena, key_max, val_max) == Ok::<
                    Replay,
                    int,
                >(
                    Replay {
                        blocks: rss.len() + (if last.len() > 0 {
                            1nat
                        } else {
                            0nat
                        }),
                        ..p
                    },
                ),
            }
        }),
    decreases rss.len(),
{
    let last = last_records(c, id + rss.len(), end);
    if rss.len() == 0 {
        assert(log_records(rss) + last =~= last);
    } else {
        let rs = rss[0];
        let rest = rss.skip(1);
        let after = log_records(rest) + last;
        assert(logged(c, id, rss, 0, block));
        law_committed_block_replays(rs, block);
        assert(log_records(rss) + last =~= rs + after);
        lemma_replay_concat(t, rs, after, floor, cap, arena, key_max, val_max);
        assert forall|i: int| 0 <= i < rest.len() implies #[trigger] logged(
            c,
            id + 1,
            rest,
            i,
            block,
        ) by {
            assert(logged(c, id, rss, i + 1, block));
            assert(rest[i] == rss[i + 1]);
        }
        match replay_block(t, rs, floor, cap, arena, key_max, val_max) {
            None => {},
            Some(p) => {
                law_log_roundtrip(
                    c,
                    id + 1,
                    end,
                    rest,
                    p.table,
                    floor,
                    cap,
                    arena,
                    key_max,
                    val_max,
                    block,
                );
            },
        }
    }
}

// ---------------------------------------------------------------------
// Executable code.

/// Total encoded length of a record for the given lengths.
fn record_len(key_len: usize, val_len: usize, op: Op) -> (r: usize)
    requires
        key_len <= 0xFFFF,
        val_len <= 0xFFFF,
    ensures
        r == 23 + key_len + val_len + ttl_len(op),
{
    let ttl: usize = if op == Op::PutTtl {
        8
    } else {
        0
    };
    WAL_RECORD_OVERHEAD + key_len + val_len + ttl
}

/// The first `k` fields of a record.
#[verifier::opaque]
spec fn head_bytes(r: WalRec, k: nat) -> Seq<u8>
    decreases k,
{
    if k == 0 {
        le_bytes(WAL_MAGIC as nat, 2)
    } else {
        head_bytes(r, (k - 1) as nat) + field_bytes(r, k)
    }
}

/// Field `k` of a record.
spec fn field_bytes(r: WalRec, k: nat) -> Seq<u8> {
    if k == 1 {
        le_bytes((rec_len(r) - 6) as nat, 4)
    } else if k == 2 {
        le_bytes(r.seq as nat, 8)
    } else if k == 3 {
        seq![r.op.byte()]
    } else if k == 4 {
        le_bytes(r.key.len(), 2)
    } else if k == 5 {
        le_bytes(r.val.len(), 2)
    } else if k == 6 {
        r.key
    } else if k == 7 {
        r.val
    } else {
        le_bytes(r.expire_at as nat, ttl_len(r.op))
    }
}

/// Writing the fields one behind the other writes the record.
proof fn lemma_encode_steps(d: Seq<u8>, at: int, r: WalRec)
    requires
        0 <= at,
        at + rec_len(r) <= d.len(),
    ensures
        spliced(spliced(d, at, head_bytes(r, 0)), at + 2, le_bytes((rec_len(r) - 6) as nat, 4))
            == spliced(d, at, head_bytes(r, 1)),
        spliced(spliced(d, at, head_bytes(r, 1)), at + 6, le_bytes(r.seq as nat, 8)) == spliced(
            d,
            at,
            head_bytes(r, 2),
        ),
        spliced(spliced(d, at, head_bytes(r, 2)), at + 14, seq![r.op.byte()]) == spliced(
            d,
            at,
            head_bytes(r, 3),
        ),
        spliced(spliced(d, at, head_bytes(r, 3)), at + 15, le_bytes(r.key.len(), 2)) == spliced(
            d,
            at,
            head_bytes(r, 4),
        ),
        spliced(spliced(d, at, head_bytes(r, 4)), at + 17, le_bytes(r.val.len(), 2)) == spliced(
            d,
            at,
            head_bytes(r, 5),
        ),
        spliced(spliced(d, at, head_bytes(r, 5)), at + 19, r.key) == spliced(
            d,
            at,
            head_bytes(r, 6),
        ),
        spliced(spliced(d, at, head_bytes(r, 6)), at + 19 + r.key.len(), r.val) == spliced(
            d,
            at,
            head_bytes(r, 7),
        ),
        spliced(
            spliced(d, at, head_bytes(r, 7)),
            at + 19 + r.key.len() + r.val.len(),
            le_bytes(r.expire_at as nat, ttl_len(r.op)),
        ) == spliced(d, at, head_bytes(r, 8)),
        head_bytes(r, 0) == le_bytes(WAL_MAGIC as nat, 2),
        head_bytes(r, 0).len() == 2,
        head_bytes(r, 1).len() == 6,
        head_bytes(r, 2).len() == 14,
        head_bytes(r, 3).len() == 15,
        head_bytes(r, 4).len() == 17,
        head_bytes(r, 5).len() == 19,
        head_bytes(r, 6).len() == 19 + r.key.len(),
        head_bytes(r, 7).len() == 19 + r.key.len() + r.val.len(),
        head_bytes(r, 8).len() == 19 + r.key.len() + r.val.len() + ttl_len(r.op),
        spliced(d, at, head_bytes(r, 8)).subrange(at + 2, at + head_bytes(r, 8).len()) == rec_body(
            r,
        ),
        spliced(d, at, head_bytes(r, 8)).len() == d.len(),
        spliced(
            spliced(d, at, head_bytes(r, 8)),
            at + head_bytes(r, 8).len(),
            le_bytes(crc32_of(rec_body(r)) as nat, 4),
        ) == spliced(d, at, rec_bytes(r)),
{
    reveal(rec_body);
    reveal(rec_bytes);
    reveal_with_fuel(head_bytes, 9);
    let crc = le_bytes(crc32_of(rec_body(r)) as nat, 4);
    lemma_le_bytes_len(WAL_MAGIC as nat, 2);
    lemma_le_bytes_len((rec_len(r) - 6) as nat, 4);
    lemma_le_bytes_len(r.seq as nat, 8);
    lemma_le_bytes_len(r.key.len(), 2);
    lemma_le_bytes_len(r.val.len(), 2);
    lemma_le_bytes_len(r.expire_at as nat, ttl_len(r.op));
    lemma_le_bytes_len(crc32_of(rec_body(r)) as nat, 4);
    lemma_splice_append(d, at, head_bytes(r, 0), le_bytes((rec_len(r) - 6) as nat, 4));
    lemma_splice_append(d, at, head_bytes(r, 1), le_bytes(r.seq as nat, 8));
    lemma_splice_append(d, at, head_bytes(r, 2), seq![r.op.byte()]);
    lemma_splice_append(d, at, head_bytes(r, 3), le_bytes(r.key.len(), 2));
    lemma_splice_append(d, at, head_bytes(r, 4), le_bytes(r.val.len(), 2));
    lemma_splice_append(d, at, head_bytes(r, 5), r.key);
    lemma_splice_append(d, at, head_bytes(r, 6), r.val);
    lemma_splice_append(
        d,
        at,
        head_bytes(r, 7),
        le_bytes(r.expire_at as nat, ttl_len(r.op)),
    );
    let h = head_bytes(r, 8);
    lemma_splice_append(d, at, h, crc);
    lemma_splice_read(d, at, h, 2, h.len() as int);
    assert(h.subrange(2, h.len() as int) =~= rec_body(r));
    assert(h + crc =~= rec_bytes(r));
}

/// Serializes one record into `out` at `at`. Returns the bytes written.
fn encode_record(
    out: &mut [u8],
    at: usize,
    seq: u64,
    op: Op,
    key: &[u8],
    val: &[u8],
    expire_at: u64,
) -> (n: usize)
    requires
        key@.len() <= 0xFFFF,
        val@.len() <= 0xFFFF,
        op != Op::PutTtl ==> expire_at == 0,
        at + 23 + key@.len() + val@.len() + ttl_len(op) <= old(out)@.len(),
    ensures
        n == rec_len((WalRec { seq, op, key: key@, val: val@, expire_at })),
        final(out)@ == spliced(
            old(out)@,
            at as int,
            rec_bytes((WalRec { seq, op, key: key@, val: val@, expire_at })),
        ),
        final(out)@.len() == old(out)@.len(),
{
    let ghost r = WalRec { seq, op, key: key@, val: val@, expire_at };
    let m: usize = out.len();
    let kl: usize = key.len();
    let vl: usize = val.len();
    let total: usize = record_len(kl, vl, op);
    let ttl: usize = total - WAL_RECORD_OVERHEAD - kl - vl;
    let len: u64 = (total - 6) as u64;
    let ghost d = out@;
    proof {
        lemma_encode_steps(d, at as int, r);
    }
    store_le(out, at, WAL_MAGIC as u64, 2);
    store_le(out, at + 2, len, 4);
    store_le(out, at + 6, seq, 8);
    let tag: [u8; 1] = [op.to_u8()];
    assert(tag@ =~= seq![op.byte()]);
    copy_into(out, at + 14, &tag);
    store_le(out, at + 15, kl as u64, 2);
    store_le(out, at + 17, vl as u64, 2);
    copy_into(out, at + 19, key);
    copy_into(out, at + 19 + kl, val);
    store_le(out, at + 19 + kl + vl, expire_at, ttl);
    let crc_end: usize = at + 19 + kl + vl + ttl;
    assert(out@ == spliced(d, at as int, head_bytes(r, 8)));
    let crc: u32 = crc32(&out[at + 2..crc_end]);
    store_le(out, crc_end, crc as u64, 4);
    total
}

/// A successfully decoded record, borrowing the input block.
struct Decoded<'a> {
    seq: u64,
    op: Op,
    key: &'a [u8],
    val: &'a [u8],
    expire_at: u64,
    total_len: usize,
}

impl<'a> Decoded<'a> {
    spec fn view(&self) -> WalRec {
        WalRec {
            seq: self.seq,
            op: self.op,
            key: self.key@,
            val: self.val@,
            expire_at: self.expire_at,
        }
    }
}

/// What [`scan_record`] found at the current offset.
enum Scan<'a> {
    /// A fully intact, CRC-valid record.
    Record(Decoded<'a>),
    /// The rest of the block is zero padding: the block is cleanly consumed.
    CleanEnd,
    /// Non-zero data that is not a valid record: the torn tail starts here.
    Corrupt,
}

/// Classifies the data at the start of `buf`: a valid record, clean zero
/// padding, or the torn tail.
fn scan_record(buf: &[u8]) -> (r: Scan<'_>)
    ensures
        match r {
            Scan::CleanEnd => all_zeros(buf@),
            Scan::Corrupt => !all_zeros(buf@) && rec_parse(buf@) is None,
            Scan::Record(d) => !all_zeros(buf@) && rec_parse(buf@) == Some(
                (d.view(), d.total_len as nat),
            ),
        },
{
    if all_zero(buf) {
        return Scan::CleanEnd;
    }
    match decode_record(buf) {
        Some(d) => Scan::Record(d),
        None => Scan::Corrupt,
    }
}

/// Replaying keeps the table sorted, and no sequence escapes the highest
/// one seen.
proof fn lemma_replay_block_top(
    t: Seq<Rec>,
    rs: Seq<WalRec>,
    floor: u64,
    cap: usize,
    arena: usize,
    key_max: usize,
    val_max: usize,
)
    requires
        key_sorted(t),
    ensures
        replay_block(t, rs, floor, cap, arena, key_max, val_max) matches Some(p) ==> key_sorted(
            p.table,
        ) && top_seq(p.table) <= seq_max(top_seq(t), p.max_seq),
    decreases rs.len(),
{
    if rs.len() > 0 {
        let r = rs[0];
        let e = entry_of(r);
        let t1 = if r.seq > floor {
            with_rec(t, e)
        } else {
            t
        };
        if r.seq > floor {
            law_with_rec_keeps_order(t, e);
            lemma_lower(t, e.key);
            lemma_top_insert(t, lower(t, e.key), e);
        }
        lemma_replay_block_top(t1, rs.skip(1), floor, cap, arena, key_max, val_max);
    }
}

/// Replaying a log keeps the table sorted, and no sequence escapes the
/// highest one seen.
pub proof fn lemma_replay_top(
    c: Map<u64, Seq<u8>>,
    id: int,
    end: int,
    t: Seq<Rec>,
    floor: u64,
    cap: usize,
    arena: usize,
    key_max: usize,
    val_max: usize,
)
    requires
        key_sorted(t),
    ensures
        replay_log(c, id, end, t, floor, cap, arena, key_max, val_max) matches Ok(p) ==> key_sorted(
            p.table,
        ) && top_seq(p.table) <= seq_max(top_seq(t), p.max_seq),
    decreases end - id,
{
    let (rs, torn) = block_records(c[id as u64]);
    if id < end && rs.len() > 0 {
        lemma_replay_block_top(t, rs, floor, cap, arena, key_max, val_max);
        match replay_block(t, rs, floor, cap, arena, key_max, val_max) {
            None => {},
            Some(p) => {
                if !torn {
                    lemma_replay_top(
                        c,
                        id + 1,
                        end,
                        p.table,
                        floor,
                        cap,
                        arena,
                        key_max,
                        val_max,
                    );
                }
            },
        }
    }
}

/// `true` if every byte in `bytes` is zero.
pub fn all_zero(bytes: &[u8]) -> (r: bool)
    ensures
        r == all_zeros(bytes@),
{
    let n: usize = bytes.len();
    let mut i: usize = 0;
    while i < n
        invariant
            n == bytes@.len(),
            i <= n,
            forall|k: int| 0 <= k < i ==> #[trigger] bytes@[k] == 0,
        decreases n - i,
    {
        if bytes[i] != 0 {
            return false;
        }
        i = i + 1;
    }
    true
}

/// Decodes one record at the start of `buf`.
///
/// Returns `None` for anything that is not a fully intact, CRC-valid record:
/// a torn write, a bad magic, a bad length, or a CRC mismatch.
fn decode_record(buf: &[u8]) -> (r: Option<Decoded<'_>>)
    ensures
        match r {
            Some(d) => rec_parse(buf@) == Some((d.view(), d.total_len as nat)),
            None => rec_parse(buf@) is None,
        },
{
    proof {
        lemma_pow256();
    }
    if buf.len() < WAL_HEADER_LEN {
        return None;
    }
    if load_le(buf, 0, 2) != WAL_MAGIC as u64 {
        return None;
    }
    let len: u64 = load_le(buf, 2, 4);
    if len + 6 > buf.len() as u64 {
        return None;
    }
    let seq: u64 = load_le(buf, 6, 8);
    let op: Op = match Op::from_u8(buf[14]) {
        Some(op) => op,
        None => {
            return None;
        },
    };
    let kl: usize = load_le(buf, 15, 2) as usize;
    let vl: usize = load_le(buf, 17, 2) as usize;
    let ttl: usize = if op == Op::PutTtl {
        8
    } else {
        0
    };
    if (17 + kl + vl + ttl) as u64 != len {
        return None;
    }
    let end: usize = 19 + kl + vl + ttl;
    let stored: u64 = load_le(buf, end, 4);
    if crc32(&buf[2..end]) as u64 != stored {
        return None;
    }
    let expire_at: u64 = load_le(buf, 19 + kl + vl, ttl);
    Some(
        Decoded {
            seq,
            op,
            key: &buf[19..19 + kl],
            val: &buf[19 + kl..19 + kl + vl],
            expire_at,
            total_len: (len + 6) as usize,
        },
    )
}

/// Summary of a [`WalWriter::recover`] run.
#[derive(Debug, Clone, Copy)]
pub struct RecoverState {
    /// Records successfully replayed.
    pub records: u64,
    /// Highest sequence number seen.
    pub max_seq: u64,
    /// WAL blocks consumed (first unwritten block is `wal_start +
    /// blocks_used`).
    pub blocks_used: u64,
}

/// WAL writer: owns the device, a block-sized staging buffer, and the append
/// position. Records are staged in RAM and become durable on
/// [`commit`](WalWriter::commit).
pub struct WalWriter<D: BlockDevice, const BLOCK: usize> {
    device: D,
    wal_start: u64,
    wal_end: u64,
    stage: [u8; BLOCK],
    stage_len: usize,
    /// High-water mark: past it (and past `stage_len`) the staging buffer
    /// is zero.
    dirty_to: usize,
    next_block: u64,
    max_seq: u64,
}

impl<D: BlockDevice, const BLOCK: usize> WalWriter<D, BLOCK> {
    /// The block sizes agree, and the staging buffer is zero past what is
    /// staged or was staged before.
    pub closed spec fn wf(&self) -> bool {
        &&& D::BLOCK == BLOCK
        &&& BLOCK >= 512
        &&& self.stage_len <= BLOCK
        &&& self.dirty_to <= BLOCK
        &&& forall|i: int|
            self.stage_len <= i < BLOCK && self.dirty_to <= i ==> #[trigger] self.stage@[i] == 0
    }

    /// The device.
    pub closed spec fn dev(&self) -> D {
        self.device
    }

    /// The blocks on the device.
    pub open spec fn content(&self) -> Map<u64, Seq<u8>> {
        self.dev().content()
    }

    /// First block of the log region.
    pub closed spec fn start(&self) -> u64 {
        self.wal_start
    }

    /// One past the last block of the log region.
    pub closed spec fn end(&self) -> u64 {
        self.wal_end
    }

    /// The block the next write goes to.
    pub closed spec fn next(&self) -> u64 {
        self.next_block
    }

    /// The staged bytes.
    pub closed spec fn staged(&self) -> Seq<u8> {
        self.stage@.take(self.stage_len as int)
    }

    /// Highest sequence number appended or recovered.
    pub closed spec fn top(&self) -> u64 {
        self.max_seq
    }

    /// The log region is that of `o`.
    pub open spec fn same_region(&self, o: &Self) -> bool {
        self.start() == o.start() && self.end() == o.end()
    }

    /// The staged bytes fit one block.
    pub proof fn lemma_wf(&self)
        requires
            self.wf(),
        ensures
            D::BLOCK == BLOCK,
            BLOCK >= 512,
            self.staged().len() <= BLOCK,
    {
    }

    /// Creates a writer over `device`, appending WAL blocks in
    /// `[wal_start, wal_end)`.
    #[must_use]
    pub fn new(device: D, wal_start: u64, wal_end: u64) -> (r: Self)
        requires
            D::BLOCK == BLOCK,
            BLOCK >= 512,
        ensures
            r.wf(),
            r.dev() == device,
            r.start() == wal_start,
            r.end() == wal_end,
            r.next() == wal_start,
            r.staged() == Seq::<u8>::empty(),
            r.top() == 0,
    {
        let r = WalWriter {
            device,
            wal_start,
            wal_end,
            stage: [0u8; BLOCK],
            stage_len: 0,
            dirty_to: 0,
            next_block: wal_start,
            max_seq: 0,
        };
        assert(r.staged() =~= Seq::<u8>::empty());
        r
    }

    /// Consumes the writer and returns the underlying device.
    #[must_use]
    pub fn into_device(self) -> (r: D)
        ensures
            r == self.dev(),
    {
        self.device
    }

    /// The underlying device (shared: block reads only need `&`).
    #[must_use]
    pub fn device(&self) -> (r: &D)
        ensures
            *r == self.dev(),
    {
        &self.device
    }

    /// The underlying device, mutably.
    pub fn device_mut(&mut self) -> (r: &mut D)
        ensures
            *r == old(self).dev(),
            final(self).dev() == *final(r),
            old(self).wf() ==> final(self).wf(),
            final(self).same_region(old(self)),
            final(self).next() == old(self).next(),
            final(self).staged() == old(self).staged(),
            final(self).top() == old(self).top(),
    {
        &mut self.device
    }

    /// Next block id that will be written: the WAL append position, and the
    /// value flush stores as the manifest's `wal_head`.
    #[must_use]
    pub fn next_block(&self) -> (r: u64)
        ensures
            r == self.next(),
    {
        self.next_block
    }

    /// Bytes staged and not yet written.
    #[must_use]
    pub fn staged_bytes(&self) -> (r: usize)
        requires
            self.wf(),
        ensures
            r == self.staged().len(),
    {
        self.stage_len
    }

    /// Drops staged bytes past the first `len`.
    pub fn truncate_stage(&mut self, len: usize)
        requires
            old(self).wf(),
            len <= old(self).staged().len(),
        ensures
            final(self).wf(),
            final(self).dev() == old(self).dev(),
            final(self).same_region(old(self)),
            final(self).next() == old(self).next(),
            final(self).top() == old(self).top(),
            final(self).staged() == old(self).staged().take(len as int),
    {
        if self.dirty_to < self.stage_len {
            self.dirty_to = self.stage_len;
        }
        self.stage_len = len;
        assert(self.staged() =~= old(self).staged().take(len as int));
    }

    /// Repositions the append pointer to `block` (the WAL wrap).
    ///
    /// The caller must guarantee no live records exist: every record below
    /// the old position is flushed into tables, and nothing is staged.
    pub fn reset_to(&mut self, block: u64)
        requires
            old(self).wf(),
            old(self).staged().len() == 0,
        ensures
            final(self).wf(),
            final(self).dev() == old(self).dev(),
            final(self).same_region(old(self)),
            final(self).next() == block,
            final(self).top() == old(self).top(),
            final(self).staged() == old(self).staged(),
    {
        self.next_block = block;
    }

    /// Highest sequence number appended or recovered so far.
    #[must_use]
    pub fn max_seq(&self) -> (r: u64)
        ensures
            r == self.top(),
    {
        self.max_seq
    }

    /// The outcome of staging record `r`, of `a` before and `b` after.
    pub open spec fn append_outcome(
        a: &Self,
        b: &Self,
        r: WalRec,
        res: Result<(), Error<D::Error>>,
    ) -> bool {
        let room = a.staged().len() + rec_len(r) <= BLOCK;
        &&& b.same_region(a)
        &&& room ==> b.dev() == a.dev()
        &&& synced_outside(&a.dev(), &b.dev(), a.next() as int, a.next() + 1)
        &&& res matches Ok(()) ==> {
            &&& b.top() == seq_max(r.seq, a.top())
            &&& room ==> {
                &&& b.content() == a.content()
                &&& b.next() == a.next()
                &&& b.staged() == a.staged() + rec_bytes(r)
            }
            &&& !room ==> {
                &&& a.next() < a.end()
                &&& b.content() == a.content().insert(a.next(), padded(a.staged(), BLOCK as nat))
                &&& b.next() == a.next() + 1
                &&& b.staged() == rec_bytes(r)
            }
        }
        &&& res matches Err(e) ==> {
            &&& b.next() == a.next()
            &&& b.staged() == a.staged()
            &&& b.top() == a.top()
            &&& e is Device ==> {
                &&& !room
                &&& a.next() < a.end()
                &&& b.content() == a.content().insert(a.next(), b.content()[a.next()])
            }
            &&& e !is Device ==> b.dev() == a.dev()
        }
    }

    /// Appends a record to the staging buffer. Not durable until
    /// [`commit`](WalWriter::commit). For [`Op::Delete`], `val` is ignored.
    ///
    /// # Errors
    ///
    /// [`Error::KeyTooLarge`] / [`Error::ValueTooLarge`] when the key/value
    /// do not fit the u16 wire fields, [`Error::NoSpace`] when a single
    /// record exceeds `BLOCK` or the WAL region is exhausted, or
    /// [`Error::Device`] on I/O failure.
    pub fn append(&mut self, seq: u64, op: Op, key: &[u8], val: &[u8]) -> (r: Result<
        (),
        Error<D::Error>,
    >)
        requires
            old(self).wf(),
            op != Op::PutTtl,
        ensures
            final(self).wf(),
            ({
                let v = if op == Op::Delete {
                    Seq::empty()
                } else {
                    val@
                };
                let rec = WalRec { seq, op, key: key@, val: v, expire_at: 0 };
                let room = old(self).staged().len() + rec_len(rec) <= BLOCK;
                if key@.len() > 0xFFFF {
                    r == Err::<(), Error<D::Error>>(
                        Error::KeyTooLarge { len: key@.len() as usize, max: 0xFFFF },
                    )
                } else if v.len() > 0xFFFF {
                    r == Err::<(), Error<D::Error>>(
                        Error::ValueTooLarge { len: v.len() as usize, max: 0xFFFF },
                    )
                } else if rec_len(rec) > BLOCK || (!room && old(self).next() >= old(self).end()) {
                    r == Err::<(), Error<D::Error>>(Error::NoSpace)
                } else {
                    r is Ok || (r matches Err(Error::Device(_)) && !room)
                }
            }),
            Self::append_outcome(
                old(self),
                final(self),
                (WalRec {
                    seq,
                    op,
                    key: key@,
                    val: if op == Op::Delete {
                        Seq::empty()
                    } else {
                        val@
                    },
                    expire_at: 0,
                }),
                r,
            ),
    {
        if op == Op::Delete {
            let none: [u8; 0] = [];
            assert(none@ =~= Seq::<u8>::empty());
            self.append_record(seq, op, key, &none, 0)
        } else {
            self.append_record(seq, op, key, val, 0)
        }
    }

    /// Appends a put with an absolute expiry tick; tick 0 is a plain put.
    ///
    /// # Errors
    ///
    /// As [`append`](WalWriter::append).
    pub fn append_ttl(&mut self, seq: u64, key: &[u8], val: &[u8], expire_at: u64) -> (r: Result<
        (),
        Error<D::Error>,
    >)
        requires
            old(self).wf(),
        ensures
            final(self).wf(),
            ({
                let op = if expire_at == 0 {
                    Op::Put
                } else {
                    Op::PutTtl
                };
                let rec = WalRec { seq, op, key: key@, val: val@, expire_at };
                let room = old(self).staged().len() + rec_len(rec) <= BLOCK;
                if key@.len() > 0xFFFF {
                    r == Err::<(), Error<D::Error>>(
                        Error::KeyTooLarge { len: key@.len() as usize, max: 0xFFFF },
                    )
                } else if val@.len() > 0xFFFF {
                    r == Err::<(), Error<D::Error>>(
                        Error::ValueTooLarge { len: val@.len() as usize, max: 0xFFFF },
                    )
                } else if rec_len(rec) > BLOCK || (!room && old(self).next() >= old(self).end()) {
                    r == Err::<(), Error<D::Error>>(Error::NoSpace)
                } else {
                    r is Ok || (r matches Err(Error::Device(_)) && !room)
                }
            }),
            Self::append_outcome(
                old(self),
                final(self),
                (WalRec {
                    seq,
                    op: if expire_at == 0 {
                        Op::Put
                    } else {
                        Op::PutTtl
                    },
                    key: key@,
                    val: val@,
                    expire_at,
                }),
                r,
            ),
    {
        if expire_at == 0 {
            self.append_record(seq, Op::Put, key, val, 0)
        } else {
            self.append_record(seq, Op::PutTtl, key, val, expire_at)
        }
    }

    fn append_record(&mut self, seq: u64, op: Op, key: &[u8], val: &[u8], expire_at: u64) -> (r:
        Result<(), Error<D::Error>>)
        requires
            old(self).wf(),
            op != Op::PutTtl ==> expire_at == 0,
        ensures
            final(self).wf(),
            ({
                let rec = WalRec { seq, op, key: key@, val: val@, expire_at };
                let room = old(self).staged().len() + rec_len(rec) <= BLOCK;
                if key@.len() > 0xFFFF {
                    r == Err::<(), Error<D::Error>>(
                        Error::KeyTooLarge { len: key@.len() as usize, max: 0xFFFF },
                    )
                } else if val@.len() > 0xFFFF {
                    r == Err::<(), Error<D::Error>>(
                        Error::ValueTooLarge { len: val@.len() as usize, max: 0xFFFF },
                    )
                } else if rec_len(rec) > BLOCK || (!room && old(self).next() >= old(self).end()) {
                    r == Err::<(), Error<D::Error>>(Error::NoSpace)
                } else {
                    r is Ok || (r matches Err(Error::Device(_)) && !room)
                }
            }),
            Self::append_outcome(
                old(self),
                final(self),
                (WalRec { seq, op, key: key@, val: val@, expire_at }),
                r,
            ),
    {
        let ghost rec = WalRec { seq, op, key: key@, val: val@, expire_at };
        if key.len() > 0xFFFF {
            return Err(Error::KeyTooLarge { len: key.len(), max: 0xFFFF });
        }
        if val.len() > 0xFFFF {
            return Err(Error::ValueTooLarge { len: val.len(), max: 0xFFFF });
        }
        let rlen: usize = record_len(key.len(), val.len(), op);
        if rlen > BLOCK {
            return Err(Error::NoSpace);
        }
        if self.stage_len > BLOCK - rlen {
            match self.write_stage() {
                Ok(()) => {},
                Err(e) => {
                    return Err(e);
                },
            }
        }
        let ghost before = self.stage@;
        let ghost st = self.staged();
        let at: usize = self.stage_len;
        proof {
            law_record_roundtrip(rec, Seq::empty());
            lemma_splice_index(before, at as int, rec_bytes(rec));
        }
        let n: usize = encode_record(&mut self.stage, at, seq, op, key, val, expire_at);
        self.stage_len = at + n;
        if seq > self.max_seq {
            self.max_seq = seq;
        }
        assert(self.staged() =~= st + rec_bytes(rec));
        assert(st.len() == 0 ==> self.staged() =~= rec_bytes(rec));
        assert forall|i: int| self.stage_len <= i < BLOCK && self.dirty_to <= i implies
            #[trigger] self.stage@[i] == 0 by {
            assert(self.stage@[i] == before[i]);
        }
        Ok(())
    }

    /// Writes the staging buffer (zero-padded to a full block) and flushes
    /// the device. Idempotent: writes nothing when nothing is staged.
    ///
    /// # Errors
    ///
    /// [`Error::NoSpace`] when the WAL region is exhausted, or
    /// [`Error::Device`] on I/O failure.
    pub fn commit(&mut self) -> (r: Result<(), Error<D::Error>>)
        requires
            old(self).wf(),
        ensures
            final(self).wf(),
            final(self).same_region(old(self)),
            final(self).top() == old(self).top(),
            r == Err::<(), Error<D::Error>>(Error::NoSpace) <==> old(self).staged().len() > 0
                && old(self).next() >= old(self).end(),
            r matches Err(e) ==> e is NoSpace || e is Device,
            r == Err::<(), Error<D::Error>>(Error::NoSpace) ==> final(self).next() == old(
                self,
            ).next(),
            // Either nothing was written, or the staged bytes landed.
            ({
                ||| final(self).next() == old(self).next() && final(self).staged() == old(
                    self,
                ).staged() && (final(self).content() == old(self).content() || (r matches Err(
                    Error::Device(_),
                ) && final(self).content() == old(self).content().insert(
                    old(self).next(),
                    final(self).content()[old(self).next()],
                )))
                ||| old(self).staged().len() > 0 && final(self).next() == old(self).next() + 1
                    && final(self).staged() == Seq::<u8>::empty() && final(self).content() == old(
                    self,
                ).content().insert(old(self).next(), padded(old(self).staged(), BLOCK as nat))
            }),
            old(self).staged().len() == 0 ==> final(self).content() == old(self).content(),
            r is Ok ==> final(self).staged() == Seq::<u8>::empty(),
            // What was written outlasts a power loss.
            r is Ok ==> final(self).dev().durable() == final(self).content(),
            synced_outside(
                &old(self).dev(),
                &final(self).dev(),
                old(self).next() as int,
                old(self).next() + 1,
            ),
            old(self).staged().len() == 0 ==> synced_outside(
                &old(self).dev(),
                &final(self).dev(),
                0,
                0,
            ),
            r matches Err(e) ==> e is Device || final(self).dev() == old(self).dev(),
            r is Ok && old(self).staged().len() > 0 ==> final(self).next() == old(self).next() + 1,
    {
        if self.stage_len > 0 {
            match self.write_stage() {
                Ok(()) => {},
                Err(e) => {
                    return Err(e);
                },
            }
        }
        assert(self.staged() =~= Seq::<u8>::empty());
        let ghost mid = self.device;
        let r = self.device.flush();
        proof {
            assert(synced_outside(&mid, &self.device, 0, 0));
            lemma_synced_wider(
                &mid,
                &self.device,
                0,
                0,
                old(self).next() as int,
                old(self).next() + 1,
            );
            lemma_synced_on(
                &old(self).device,
                &mid,
                &self.device,
                old(self).next() as int,
                old(self).next() + 1,
            );
        }
        match r {
            Ok(()) => Ok(()),
            Err(e) => Err(Error::Device(e)),
        }
    }

    /// Writes the current staging buffer as one zero-padded block.
    fn write_stage(&mut self) -> (r: Result<(), Error<D::Error>>)
        requires
            old(self).wf(),
        ensures
            final(self).wf(),
            final(self).same_region(old(self)),
            final(self).top() == old(self).top(),
            r == Err::<(), Error<D::Error>>(Error::NoSpace) <==> old(self).next() >= old(
                self,
            ).end(),
            synced_outside(
                &old(self).dev(),
                &final(self).dev(),
                old(self).next() as int,
                old(self).next() + 1,
            ),
            match r {
                Ok(()) => {
                    &&& final(self).content() == old(self).content().insert(
                        old(self).next(),
                        padded(old(self).staged(), BLOCK as nat),
                    )
                    &&& final(self).next() == old(self).next() + 1
                    &&& final(self).staged() == Seq::<u8>::empty()
                },
                Err(e) => {
                    &&& e is NoSpace || e is Device
                    &&& e is NoSpace ==> final(self).dev() == old(self).dev()
                    &&& e is Device ==> final(self).content() == old(self).content().insert(
                        old(self).next(),
                        final(self).content()[old(self).next()],
                    )
                    &&& final(self).next() == old(self).next()
                    &&& final(self).staged() == old(self).staged()
                },
            },
    {
        if self.next_block >= self.wal_end {
            return Err(Error::NoSpace);
        }
        proof {
            reveal(spliced);
        }
        if self.stage_len < self.dirty_to {
            zero_fill(&mut self.stage, self.stage_len, self.dirty_to);
        }
        self.dirty_to = self.stage_len;
        let ghost st = old(self).staged();
        assert(self.staged() =~= st);
        assert(self.stage@ =~= padded(st, BLOCK as nat));
        match self.device.write_block(self.next_block, &self.stage) {
            Ok(()) => {},
            Err(e) => {
                return Err(Error::Device(e));
            },
        }
        self.next_block = self.next_block + 1;
        self.stage_len = 0;
        assert(self.staged() =~= Seq::<u8>::empty());
        Ok(())
    }

    /// What the writer is after a recovery that consumed `blocks` blocks
    /// from `from` on.
    pub open spec fn recovered(&self, o: &Self, from: u64, p: Replay) -> bool {
        &&& self.same_region(o)
        &&& self.next() == from + p.blocks
        &&& self.staged() == Seq::<u8>::empty()
        &&& self.top() == p.max_seq
    }

    /// Replays the WAL from `wal_start` into `table`. See
    /// [`recover_from`](WalWriter::recover_from).
    ///
    /// # Errors
    ///
    /// Same as [`recover_from`](WalWriter::recover_from).
    pub fn recover<
        const CAP: usize,
        const ARENA: usize,
        const KEY_MAX: usize,
        const VAL_MAX: usize,
    >(&mut self, table: &mut MemTable<CAP, ARENA, KEY_MAX, VAL_MAX>) -> (r: Result<
        RecoverState,
        Error<D::Error>,
    >)
        requires
            old(self).wf(),
            old(table).wf(),
        ensures
            final(self).wf(),
            final(table).wf(),
            final(self).dev() == old(self).dev(),
            match replay_log(
                old(self).content(),
                old(self).start() as int,
                old(self).end() as int,
                old(table)@,
                0,
                CAP,
                ARENA,
                KEY_MAX,
                VAL_MAX,
            ) {
                Ok(p) => r is Ok || r matches Err(Error::Device(_)),
                Err(id) => r == Err::<RecoverState, Error<D::Error>>(
                    Error::CorruptWal { offset: id as u64 },
                ) || r matches Err(Error::Device(_)),
            },
            r matches Ok(st) ==> {
                let p = replay_log(
                    old(self).content(),
                    old(self).start() as int,
                    old(self).end() as int,
                    old(table)@,
                    0,
                    CAP,
                    ARENA,
                    KEY_MAX,
                    VAL_MAX,
                )->Ok_0;
                &&& final(self).recovered(old(self), old(self).start(), p)
                &&& final(table)@ == p.table
                &&& st.records == p.records
                &&& st.max_seq == p.max_seq
                &&& st.blocks_used == p.blocks
            },
    {
        let from: u64 = self.wal_start;
        self.recover_from(table, from, 0)
    }

    /// Replays the WAL from block `from` into `table`, stopping at the first
    /// corrupt/truncated record. Positions the writer to continue appending
    /// after the last consumed block and resets the staging buffer.
    ///
    /// `Db` passes the manifest's `wal_head`: blocks before it were flushed
    /// into tables and are no longer needed for recovery.
    ///
    /// Records with `seq <= seq_floor` are skipped, not replayed: after a
    /// WAL wrap the scan passes over stale pre-wrap blocks, and every
    /// mutation they hold is already in a table.
    ///
    /// A torn tail is the expected crash boundary, not an error.
    ///
    /// # Errors
    ///
    /// [`Error::CorruptWal`] if a structurally valid record does not fit the
    /// table, or [`Error::Device`] on I/O failure.
    pub fn recover_from<
        const CAP: usize,
        const ARENA: usize,
        const KEY_MAX: usize,
        const VAL_MAX: usize,
    >(
        &mut self,
        table: &mut MemTable<CAP, ARENA, KEY_MAX, VAL_MAX>,
        from: u64,
        seq_floor: u64,
    ) -> (r: Result<RecoverState, Error<D::Error>>)
        requires
            old(self).wf(),
            old(table).wf(),
        ensures
            final(self).wf(),
            final(table).wf(),
            final(self).dev() == old(self).dev(),
            final(self).same_region(old(self)),
            final(self).staged().len() == 0,
            match replay_log(
                old(self).content(),
                from as int,
                old(self).end() as int,
                old(table)@,
                seq_floor,
                CAP,
                ARENA,
                KEY_MAX,
                VAL_MAX,
            ) {
                Ok(p) => r is Ok || r matches Err(Error::Device(_)),
                Err(id) => r == Err::<RecoverState, Error<D::Error>>(
                    Error::CorruptWal { offset: id as u64 },
                ) || r matches Err(Error::Device(_)),
            },
            r matches Ok(st) ==> {
                let p = replay_log(
                    old(self).content(),
                    from as int,
                    old(self).end() as int,
                    old(table)@,
                    seq_floor,
                    CAP,
                    ARENA,
                    KEY_MAX,
                    VAL_MAX,
                )->Ok_0;
                &&& final(self).recovered(old(self), from, p)
                &&& final(table)@ == p.table
                &&& st.records == p.records
                &&& st.max_seq == p.max_seq
                &&& st.blocks_used == p.blocks
            },
    {
        let mut records: u64 = 0;
        let mut max_seq: u64 = 0;
        let mut used: u64 = 0;
        let end: u64 = self.wal_end;
        self.stage_len = 0;
        self.dirty_to = BLOCK;
        let ghost goal = replay_log(
            old(self).content(),
            from as int,
            end as int,
            old(table)@,
            seq_floor,
            CAP,
            ARENA,
            KEY_MAX,
            VAL_MAX,
        );
        let ghost t0 = table@.len();
        let mut done: bool = false;
        while !done && used < end && from < end - used
            invariant
                self.wf(),
                self.staged().len() == 0,
                self.stage_len == 0,
                self.dirty_to == BLOCK,
                self.device == old(self).device,
                self.wal_start == old(self).wal_start,
                self.wal_end == old(self).wal_end,
                end == old(self).wal_end,
                used == 0 || from + used <= end,
                table.wf(),
                records + t0 <= table@.len(),
                goal == replay_log(
                    old(self).content(),
                    from as int,
                    end as int,
                    old(table)@,
                    seq_floor,
                    CAP,
                    ARENA,
                    KEY_MAX,
                    VAL_MAX,
                ),
                !done ==> goal == behind(
                    replay_log(
                        old(self).content(),
                        from + used,
                        end as int,
                        table@,
                        seq_floor,
                        CAP,
                        ARENA,
                        KEY_MAX,
                        VAL_MAX,
                    ),
                    records as nat,
                    max_seq,
                    used as nat,
                ),
                done ==> goal == Ok::<Replay, int>(
                    Replay {
                        table: table@,
                        records: records as nat,
                        max_seq,
                        blocks: used as nat,
                    },
                ),
            decreases end - used, (if done { 0int } else { 1int }),
        {
            let id: u64 = from + used;
            match self.device.read_block(id, &mut self.stage) {
                Ok(()) => {},
                Err(e) => {
                    return Err(Error::Device(e));
                },
            }
            let ghost before = table@;
            match replay_block_into(&self.stage, table, seq_floor) {
                None => {
                    return Err(Error::CorruptWal { offset: id });
                },
                Some((n, top, any, torn)) => {
                    proof {
                        table.lemma_wf();
                    }
                    if !any {
                        done = true;
                    } else {
                        records = records + n;
                        if top > max_seq {
                            max_seq = top;
                        }
                        used = used + 1;
                        if torn {
                            done = true;
                        }
                    }
                },
            }
        }
        self.next_block = from + used;
        self.max_seq = max_seq;
        assert(self.staged() =~= Seq::<u8>::empty());
        Ok(RecoverState { records, max_seq, blocks_used: used })
    }
}

/// A replay with the part before it added.
pub open spec fn behind(p: Result<Replay, int>, records: nat, max_seq: u64, blocks: nat) -> Result<
    Replay,
    int,
> {
    match p {
        Err(e) => Err(e),
        Ok(q) => Ok(
            Replay {
                table: q.table,
                records: records + q.records,
                max_seq: seq_max(max_seq, q.max_seq),
                blocks: blocks + q.blocks,
            },
        ),
    }
}

/// Replays one block's records into `table`: how many were replayed, the
/// highest sequence seen, whether there was any record, and whether the
/// block ends torn. `None` when a record does not fit.
fn replay_block_into<
    const CAP: usize,
    const ARENA: usize,
    const KEY_MAX: usize,
    const VAL_MAX: usize,
>(block: &[u8], table: &mut MemTable<CAP, ARENA, KEY_MAX, VAL_MAX>, floor: u64) -> (r: Option<
    (u64, u64, bool, bool),
>)
    requires
        old(table).wf(),
    ensures
        final(table).wf(),
        match r {
            Some((n, top, any, torn)) => {
                let (rs, t) = block_records(block@);
                &&& replay_block(old(table)@, rs, floor, CAP, ARENA, KEY_MAX, VAL_MAX) == Some(
                    Replay { table: final(table)@, records: n as nat, max_seq: top, blocks: 0 },
                )
                &&& any == (rs.len() > 0)
                &&& torn == t
                &&& n + old(table)@.len() <= final(table)@.len()
            },
            None => {
                let rs = block_records(block@).0;
                &&& rs.len() > 0
                &&& replay_block(old(table)@, rs, floor, CAP, ARENA, KEY_MAX, VAL_MAX) is None
            },
        },
{
    let len: usize = block.len();
    let mut off: usize = 0;
    let mut n: u64 = 0;
    let mut top: u64 = 0;
    let mut any: bool = false;
    let ghost all = block_records(block@);
    let ghost goal = replay_block(old(table)@, all.0, floor, CAP, ARENA, KEY_MAX, VAL_MAX);
    assert(block@.skip(0) =~= block@);
    loop
        invariant
            len == block@.len(),
            off <= len,
            table.wf(),
            n + old(table)@.len() <= table@.len(),
            all == block_records(block@),
            all.1 == block_records(block@.skip(off as int)).1,
            any == (all.0.len() > block_records(block@.skip(off as int)).0.len()),
            all.0.len() >= block_records(block@.skip(off as int)).0.len(),
            goal == replay_block(old(table)@, all.0, floor, CAP, ARENA, KEY_MAX, VAL_MAX),
            goal == (match replay_block(
                table@,
                block_records(block@.skip(off as int)).0,
                floor,
                CAP,
                ARENA,
                KEY_MAX,
                VAL_MAX,
            ) {
                None => None,
                Some(p) => Some(
                    Replay {
                        table: p.table,
                        records: n as nat + p.records,
                        max_seq: seq_max(top, p.max_seq),
                        blocks: 0,
                    },
                ),
            }),
        decreases len - off,
    {
        let ghost s = block@.skip(off as int);
        match scan_record(&block[off..len]) {
            Scan::CleanEnd => {
                assert(s =~= block@.subrange(off as int, len as int));
                return Some((n, top, any, false));
            },
            Scan::Corrupt => {
                assert(s =~= block@.subrange(off as int, len as int));
                return Some((n, top, any, true));
            },
            Scan::Record(rec) => {
                assert(s =~= block@.subrange(off as int, len as int));
                let ghost rs = block_records(s).0;
                let ghost next = s.skip(rec.total_len as int);
                proof {
                    assert(block@.skip(off + rec.total_len) =~= next);
                    assert(rs == seq![rec.view()] + block_records(next).0);
                    assert(rs.skip(1) =~= block_records(next).0);
                    assert(rs[0] == rec.view());
                }
                if rec.seq > floor {
                    if !replay_one(table, &rec) {
                        return None;
                    }
                    proof {
                        table.lemma_wf();
                    }
                    n = n + 1;
                }
                if rec.seq > top {
                    top = rec.seq;
                }
                any = true;
                off = off + rec.total_len;
            },
        }
    }
}

/// Applies one record to `table`; `false` when it does not fit.
fn replay_one<
    const CAP: usize,
    const ARENA: usize,
    const KEY_MAX: usize,
    const VAL_MAX: usize,
>(table: &mut MemTable<CAP, ARENA, KEY_MAX, VAL_MAX>, rec: &Decoded<'_>) -> (r: bool)
    requires
        old(table).wf(),
    ensures
        final(table).wf(),
        r == fits_table(old(table)@, rec.view(), CAP, ARENA, KEY_MAX, VAL_MAX),
        r ==> final(table)@ == with_rec(old(table)@, entry_of(rec.view())),
        r ==> final(table)@.len() == old(table)@.len() + 1,
{
    proof {
        table.lemma_wf();
        crate::memtable::law_with_rec_keeps_order(table@, entry_of(rec.view()));
    }
    let done: Result<(), Error<()>> = match rec.op {
        Op::Put => table.insert(rec.key, rec.val, rec.seq, false),
        Op::Delete => table.insert(rec.key, rec.val, rec.seq, true),
        Op::RangeDelete => table.insert_range_del(rec.key, rec.val, rec.seq),
        Op::PutTtl => table.insert_ttl(rec.key, rec.val, rec.seq, rec.expire_at),
    };
    done.is_ok()
}

} // verus!

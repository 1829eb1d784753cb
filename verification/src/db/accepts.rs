//! Which writes are owed success, and why each other one is refused.

use vstd::prelude::*;

use super::write::{
    batch_arena, batch_wal, delete_rec, put_rec, range_delete_rec, ttl_rec,
};
use super::Db;
use crate::batch::{queue_check, BatchOpV};
use crate::device::BlockDevice;
use crate::error::Error;
use crate::memtable::{
    arena_used, key_sorted, law_with_rec_keeps_order, lemma_arena_insert, lemma_lower, lower, Rec,
};
use crate::wal::{entry_of, Op, WalRec};

verus! {

/// The arena holds the keys and values of the entries, and nothing else:
/// each entry takes exactly its bytes, wherever it stands.
pub proof fn law_arena_counts_bytes(v: Seq<Rec>, p: int, e: Rec)
    requires
        0 <= p <= v.len(),
    ensures
        arena_used(Seq::empty()) == 0,
        arena_used(v.insert(p, e)) == arena_used(v) + e.key.len() + e.val.len(),
{
    lemma_arena_insert(v, p, e);
}

/// An op takes the 23 bytes of a record's frame, its key and its value in
/// the log, and its key and value in the arena.
pub proof fn law_batch_counts_bytes(ops: Seq<BatchOpV>, o: BatchOpV)
    ensures
        batch_wal(Seq::empty()) == 0,
        batch_arena(Seq::empty()) == 0,
        batch_wal(ops.push(o)) == batch_wal(ops) + 23 + o.key.len() + o.val.len(),
        batch_arena(ops.push(o)) == batch_arena(ops) + o.key.len() + o.val.len(),
{
    assert(ops.push(o).drop_last() =~= ops);
}

/// A batch takes an op exactly when it has a free place, the key has a
/// byte, and key and value keep within their limits; otherwise it says
/// which rule was broken.
pub proof fn law_queue_accepts(
    queued: int,
    ops: usize,
    klen: nat,
    vlen: nat,
    key_max: usize,
    val_max: usize,
)
    requires
        klen <= usize::MAX,
        vlen <= usize::MAX,
    ensures
        queue_check(queued, ops, klen, vlen, key_max, val_max) is Ok <==> {
            &&& queued < ops
            &&& 1 <= klen <= key_max
            &&& klen <= 0xFFFF
            &&& vlen <= val_max
            &&& vlen <= 0xFFFF
        },
        queue_check(queued, ops, klen, vlen, key_max, val_max) matches Err(e) ==> {
            ||| e == Error::<core::convert::Infallible>::BatchFull && queued >= ops
            ||| e == Error::<core::convert::Infallible>::EmptyKey && klen == 0
            ||| e is KeyTooLarge && (klen > key_max || klen > 0xFFFF)
            ||| e is ValueTooLarge && (vlen > val_max || vlen > 0xFFFF)
        },
{
}

impl<
    D: BlockDevice,
    const BLOCK: usize,
    const KEY_MAX: usize,
    const VAL_MAX: usize,
    const CAP: usize,
    const ARENA: usize,
    const LEVELS: usize,
    const TABLES: usize,
    const BLOOM_BYTES: usize,
    const CACHE: usize,
> Db<D, BLOCK, KEY_MAX, VAL_MAX, CAP, ARENA, LEVELS, TABLES, BLOOM_BYTES, CACHE> {
    /// What one accepted write takes: the next sequence number, one entry
    /// and its bytes of the memtable, and one log block.
    proof fn lemma_takes(a: &Self, b: &Self, rec0: WalRec, seq: u64)
        requires
            a.wf(),
            a.is_opened(),
            Self::wrote(a, b, rec0, Ok(seq)),
            rec0.op == Op::Delete ==> rec0.val.len() == 0,
        ensures
            seq == a.issued_seq() + 1,
            b.issued_seq() == seq,
            b.wal_next() == a.wal_next() + 1,
            b.mem().len() == a.mem().len() + 1,
            arena_used(b.mem()) == arena_used(a.mem()) + rec0.key.len() + rec0.val.len(),
            b.man() == a.man(),
    {
        let e = entry_of(WalRec { seq, ..rec0 });
        a.table.lemma_wf();
        lemma_lower(a.mem(), e.key);
        lemma_arena_insert(a.mem(), lower(a.mem(), e.key), e);
    }

    /// A put is owed success: a key of 1 to `KEY_MAX` bytes and a value of
    /// at most `VAL_MAX` are stored whenever the memtable has a free entry
    /// and room for the bytes, the log a block and the counter a number
    /// left; only the device can then fail it. In every other case the
    /// refusal names the first thing that is wrong, and nothing changes.
    pub proof fn law_put_accepts(
        a: &Self,
        b: &Self,
        key: Seq<u8>,
        val: Seq<u8>,
        r: Result<u64, Error<D::Error>>,
    )
        requires
            a.wf(),
            a.is_opened(),
            Self::wrote(a, b, put_rec(key, val), r),
        ensures
            ({
                let held = arena_used(a.mem());
                let refused = |e: Error<D::Error>|
                    r == Err::<u64, Error<D::Error>>(e) && b.mem() == a.mem() && b.content()
                        == a.content() && b.issued_seq() == a.issued_seq() && b.wal_next()
                        == a.wal_next();
                if key.len() == 0 {
                    refused(Error::EmptyKey)
                } else if key.len() > KEY_MAX {
                    refused(Error::KeyTooLarge { len: key.len() as usize, max: KEY_MAX })
                } else if val.len() > VAL_MAX {
                    refused(Error::ValueTooLarge { len: val.len() as usize, max: VAL_MAX })
                } else if a.mem().len() >= CAP {
                    refused(Error::TableFull)
                } else if held + key.len() + val.len() > ARENA {
                    refused(Error::ArenaFull)
                } else if a.issued_seq() == u64::MAX {
                    refused(Error::CounterExhausted)
                } else if a.wal_next() >= a.config().wal_end {
                    refused(Error::WalFull)
                } else {
                    match r {
                        Ok(seq) => {
                            &&& seq == a.issued_seq() + 1
                            &&& b.issued_seq() == seq
                            &&& b.wal_next() == a.wal_next() + 1
                            &&& b.mem().len() == a.mem().len() + 1
                            &&& arena_used(b.mem()) == held + key.len() + val.len()
                        },
                        Err(e) => e is Device && b.mem() == a.mem(),
                    }
                }
            }),
    {
        a.lemma_wf();
        if r is Ok {
            Self::lemma_takes(a, b, put_rec(key, val), r->Ok_0);
        }
    }

    /// A put with an expiry is owed success as one without, where its
    /// record, eight bytes longer, fits a log block. An expiry of 0 is none.
    pub proof fn law_ttl_accepts(
        a: &Self,
        b: &Self,
        key: Seq<u8>,
        val: Seq<u8>,
        expire_at: u64,
        r: Result<u64, Error<D::Error>>,
    )
        requires
            a.wf(),
            a.is_opened(),
            Self::wrote(a, b, ttl_rec(key, val, expire_at), r),
        ensures
            ({
                let held = arena_used(a.mem());
                let refused = |e: Error<D::Error>|
                    r == Err::<u64, Error<D::Error>>(e) && b.mem() == a.mem() && b.content()
                        == a.content() && b.issued_seq() == a.issued_seq() && b.wal_next()
                        == a.wal_next();
                if key.len() == 0 {
                    refused(Error::EmptyKey)
                } else if key.len() > KEY_MAX {
                    refused(Error::KeyTooLarge { len: key.len() as usize, max: KEY_MAX })
                } else if val.len() > VAL_MAX {
                    refused(Error::ValueTooLarge { len: val.len() as usize, max: VAL_MAX })
                } else if a.mem().len() >= CAP {
                    refused(Error::TableFull)
                } else if held + key.len() + val.len() > ARENA {
                    refused(Error::ArenaFull)
                } else if a.issued_seq() == u64::MAX {
                    refused(Error::CounterExhausted)
                } else if expire_at != 0 && 31 + key.len() + val.len() > BLOCK {
                    refused(Error::NoSpace)
                } else if a.wal_next() >= a.config().wal_end {
                    refused(Error::WalFull)
                } else {
                    match r {
                        Ok(seq) => {
                            &&& seq == a.issued_seq() + 1
                            &&& b.issued_seq() == seq
                            &&& b.wal_next() == a.wal_next() + 1
                            &&& b.mem().len() == a.mem().len() + 1
                            &&& arena_used(b.mem()) == held + key.len() + val.len()
                        },
                        Err(e) => e is Device && b.mem() == a.mem(),
                    }
                }
            }),
    {
        a.lemma_wf();
        if r is Ok {
            Self::lemma_takes(a, b, ttl_rec(key, val, expire_at), r->Ok_0);
        }
    }

    /// A delete is owed success whenever the memtable has a free entry and
    /// room for the key, whether or not the key is there.
    pub proof fn law_delete_accepts(
        a: &Self,
        b: &Self,
        key: Seq<u8>,
        r: Result<u64, Error<D::Error>>,
    )
        requires
            a.wf(),
            a.is_opened(),
            Self::wrote(a, b, delete_rec(key), r),
        ensures
            ({
                let held = arena_used(a.mem());
                let refused = |e: Error<D::Error>|
                    r == Err::<u64, Error<D::Error>>(e) && b.mem() == a.mem() && b.content()
                        == a.content() && b.issued_seq() == a.issued_seq() && b.wal_next()
                        == a.wal_next();
                if key.len() == 0 {
                    refused(Error::EmptyKey)
                } else if key.len() > KEY_MAX {
                    refused(Error::KeyTooLarge { len: key.len() as usize, max: KEY_MAX })
                } else if a.mem().len() >= CAP {
                    refused(Error::TableFull)
                } else if held + key.len() > ARENA {
                    refused(Error::ArenaFull)
                } else if a.issued_seq() == u64::MAX {
                    refused(Error::CounterExhausted)
                } else if a.wal_next() >= a.config().wal_end {
                    refused(Error::WalFull)
                } else {
                    match r {
                        Ok(seq) => {
                            &&& seq == a.issued_seq() + 1
                            &&& b.issued_seq() == seq
                            &&& b.wal_next() == a.wal_next() + 1
                            &&& b.mem().len() == a.mem().len() + 1
                            &&& arena_used(b.mem()) == held + key.len()
                        },
                        Err(e) => e is Device && b.mem() == a.mem(),
                    }
                }
            }),
    {
        a.lemma_wf();
        if r is Ok {
            Self::lemma_takes(a, b, delete_rec(key), r->Ok_0);
        }
    }

    /// A range delete is owed success whenever both ends keep within
    /// `KEY_MAX` and the memtable has a free entry and room for them.
    pub proof fn law_delete_range_accepts(
        a: &Self,
        b: &Self,
        start: Seq<u8>,
        end: Seq<u8>,
        r: Result<u64, Error<D::Error>>,
    )
        requires
            a.wf(),
            a.is_opened(),
            Self::wrote(a, b, range_delete_rec(start, end), r),
        ensures
            ({
                let held = arena_used(a.mem());
                let refused = |e: Error<D::Error>|
                    r == Err::<u64, Error<D::Error>>(e) && b.mem() == a.mem() && b.content()
                        == a.content() && b.issued_seq() == a.issued_seq() && b.wal_next()
                        == a.wal_next();
                if start.len() == 0 {
                    refused(Error::EmptyKey)
                } else if start.len() > KEY_MAX {
                    refused(Error::KeyTooLarge { len: start.len() as usize, max: KEY_MAX })
                } else if end.len() > KEY_MAX {
                    refused(Error::KeyTooLarge { len: end.len() as usize, max: KEY_MAX })
                } else if a.mem().len() >= CAP {
                    refused(Error::TableFull)
                } else if held + start.len() + end.len() > ARENA {
                    refused(Error::ArenaFull)
                } else if a.issued_seq() == u64::MAX {
                    refused(Error::CounterExhausted)
                } else if 23 + start.len() + end.len() > BLOCK {
                    refused(Error::NoSpace)
                } else if a.wal_next() >= a.config().wal_end {
                    refused(Error::WalFull)
                } else {
                    match r {
                        Ok(seq) => {
                            &&& seq == a.issued_seq() + 1
                            &&& b.issued_seq() == seq
                            &&& b.wal_next() == a.wal_next() + 1
                            &&& b.mem().len() == a.mem().len() + 1
                            &&& arena_used(b.mem()) == held + start.len() + end.len()
                        },
                        Err(e) => e is Device && b.mem() == a.mem(),
                    }
                }
            }),
    {
        a.lemma_wf();
        if r is Ok {
            Self::lemma_takes(a, b, range_delete_rec(start, end), r->Ok_0);
        }
    }

    /// A batch is owed success whenever its records fit one log block, the
    /// memtable has an entry for each op and room for the bytes of all, the
    /// log a block and the counter a number for each. It takes one log
    /// block, and one sequence number per op.
    pub proof fn law_batch_accepts(
        a: &Self,
        b: &Self,
        ops: Seq<BatchOpV>,
        r: Result<u64, Error<D::Error>>,
    )
        requires
            a.wf(),
            a.is_opened(),
            ops.len() > 0,
            Self::wrote_batch(a, b, ops, r),
        ensures
            ({
                let n = ops.len();
                let unchanged = b.mem() == a.mem() && b.content() == a.content()
                    && b.issued_seq() == a.issued_seq() && b.wal_next() == a.wal_next();
                let fits = {
                    &&& batch_wal(ops) <= BLOCK
                    &&& a.mem().len() + n <= CAP
                    &&& arena_used(a.mem()) + batch_arena(ops) <= ARENA
                    &&& a.issued_seq() + n <= u64::MAX
                    &&& a.wal_next() < a.config().wal_end
                };
                &&& fits ==> r is Ok || (r matches Err(e) && e is Device)
                &&& !fits ==> r is Err && unchanged
                &&& r matches Err(e) ==> b.mem() == a.mem() && match e {
                    Error::BatchTooLarge { .. } => batch_wal(ops) > BLOCK,
                    Error::TableFull => a.mem().len() + n > CAP,
                    Error::ArenaFull => arena_used(a.mem()) + batch_arena(ops) > ARENA
                        || batch_wal(ops) > usize::MAX,
                    Error::CounterExhausted => a.issued_seq() + n > u64::MAX,
                    Error::WalFull => a.wal_next() >= a.config().wal_end,
                    Error::Device(_) => fits,
                    _ => false,
                }
                &&& r matches Ok(first) ==> {
                    &&& first == a.issued_seq() + 1
                    &&& b.issued_seq() == a.issued_seq() + n
                    &&& b.wal_next() == a.wal_next() + 1
                    &&& b.mem().len() == a.mem().len() + n
                }
            }),
    {
        a.lemma_wf();
        if r is Ok {
            let rs = super::write::batch_recs(ops, (a.issued_seq() + 1) as u64);
            a.table.lemma_wf();
            lemma_applied_len(a.mem(), rs);
        }
    }
}

/// Each record adds one entry.
proof fn lemma_applied_len(mem: Seq<Rec>, rs: Seq<WalRec>)
    requires
        key_sorted(mem),
    ensures
        super::write::applied(mem, rs).len() == mem.len() + rs.len(),
        key_sorted(super::write::applied(mem, rs)),
    decreases rs.len(),
{
    if rs.len() > 0 {
        lemma_applied_len(mem, rs.drop_last());
        let v = super::write::applied(mem, rs.drop_last());
        law_with_rec_keeps_order(v, entry_of(rs.last()));
    }
}

} // verus!

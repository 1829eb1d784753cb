//! Searching one block: the index for the data blocks a key may be in, and
//! a data block for the version of a key that a read observes.

use vstd::prelude::*;

use super::block::{data_entry_parse, index_entry_parse, IndexEntry};
use super::format::{
    body_entries, body_of, ent_ok, ent_parse, ents_len, group_ok, index_list, law_body_entries,
    lemma_body_parts, lemma_entry_at, off_of, restart_count, restarts_bytes, zeros,
};
use crate::bytes::{
    bytes_eq, bytes_le, bytes_lt, copy_into, le_bytes, le_value, lemma_le_bytes_len,
    lemma_le_roundtrip, lemma_lex_asymmetric, lemma_lex_irreflexive, lemma_lex_le_le,
    lemma_lex_le_lt, lemma_lex_lt_le, lemma_lex_total, lemma_pow256, lex_le, lex_lt, load_le,
    spliced,
};
use crate::error::Error;
use crate::memtable::{is_hit, key_sorted, runs_newest_first, visible_version, Rec};
use crate::wal::{all_zero, all_zeros};

verus! {

// ---------------------------------------------------------------------
// The index.

/// First keys never descend along an index.
pub open spec fn index_sorted(l: Seq<(Seq<u8>, u64)>) -> bool {
    forall|i: int, j: int| 0 <= i <= j < l.len() ==> #[trigger] lex_le(l[i].0, #[trigger] l[j].0)
}

/// `u` entries of a sorted index have a first key at or below `key`.
pub open spec fn is_upper(l: Seq<(Seq<u8>, u64)>, key: Seq<u8>, u: int) -> bool {
    &&& 0 <= u <= l.len()
    &&& forall|i: int| 0 <= i < u ==> lex_le(#[trigger] l[i].0, key)
    &&& forall|i: int| u <= i < l.len() ==> lex_lt(key, #[trigger] l[i].0)
}

/// Block `p` is where a search for `key` starts: everything before it is
/// below `key`, everything behind it is not.
pub open spec fn is_start(l: Seq<(Seq<u8>, u64)>, key: Seq<u8>, p: int) -> bool {
    &&& 0 <= p < l.len()
    &&& lex_le(l[p].0, key)
    &&& p > 0 ==> lex_lt(l[p].0, key)
    &&& forall|i: int| p < i < l.len() ==> lex_le(key, #[trigger] l[i].0)
}

/// Parses the index entry at position `i` by walking from the start.
fn index_entry_at(payload: &[u8], i: usize) -> (r: Option<IndexEntry<'_>>)
    ensures
        (index_list(payload@) matches Some(l) && i < l.len()) ==> (r matches Some(e) && e.key@
            == (index_list(payload@)->0)[i as int].0 && e.block_id == (index_list(
            payload@,
        )->0)[i as int].1),
{
    let mut off: usize = 0;
    let mut k: usize = 0;
    let n: usize = payload.len();
    let ghost l = index_list(payload@)->0;
    let ghost good = index_list(payload@) is Some && i < l.len();
    proof {
        assert(payload@.skip(0) =~= payload@);
        if good {
            assert(l.skip(0) =~= l);
        }
    }
    while k < i
        invariant
            n == payload@.len(),
            off <= n,
            k <= i,
            good == (index_list(payload@) is Some && i < l.len()),
            l == index_list(payload@)->0,
            good ==> index_list(payload@.skip(off as int)) == Some(l.skip(k as int)),
        decreases i - k,
    {
        match index_entry_parse(payload, off) {
            None => {
                return None;
            },
            Some(e) => {
                proof {
                    if good {
                        let rest = index_list(payload@.skip(e.next as int));
                        assert(payload@.skip(off as int).skip(e.next - off) =~= payload@.skip(
                            e.next as int,
                        ));
                        assert(l.skip(k as int).skip(1) =~= l.skip(k + 1));
                        assert((seq![(e.key@, e.block_id)] + rest->0).skip(1) =~= rest->0);
                    }
                }
                off = e.next;
            },
        }
        k = k + 1;
    }
    let r = index_entry_parse(payload, off);
    proof {
        if good {
            assert(l.skip(i as int)[0] == l[i as int]);
        }
    }
    r
}

/// A parse behind entries already read.
spec fn behind_index(
    done: Seq<(Seq<u8>, u64)>,
    r: Option<Seq<(Seq<u8>, u64)>>,
) -> Option<Seq<(Seq<u8>, u64)>> {
    match r {
        None => None,
        Some(l) => Some(done + l),
    }
}

/// Counts index entries.
fn index_count<E>(payload: &[u8], index_id: u64) -> (r: Result<usize, Error<E>>)
    ensures
        match index_list(payload@) {
            None => r == Err::<usize, Error<E>>(Error::CorruptBlock { id: index_id }),
            Some(l) => r matches Ok(n) && n == l.len(),
        },
{
    let n: usize = payload.len();
    let mut count: usize = 0;
    let mut off: usize = 0;
    let ghost mut done: Seq<(Seq<u8>, u64)> = Seq::empty();
    proof {
        assert(payload@.skip(0) =~= payload@);
        if index_list(payload@) is Some {
            assert(done + index_list(payload@)->0 =~= index_list(payload@)->0);
        }
    }
    while off < n
        invariant
            n == payload@.len(),
            off <= n,
            count <= off,
            done.len() == count,
            index_list(payload@) == behind_index(done, index_list(payload@.skip(off as int))),
        decreases n - off,
    {
        match index_entry_parse(payload, off) {
            Some(e) => {
                proof {
                    let rest = index_list(payload@.skip(e.next as int));
                    assert(payload@.skip(off as int).skip(e.next - off) =~= payload@.skip(
                        e.next as int,
                    ));
                    if rest is Some {
                        assert(done + (seq![(e.key@, e.block_id)] + rest->0) =~= done.push(
                            (e.key@, e.block_id),
                        ) + rest->0);
                    }
                    done = done.push((e.key@, e.block_id));
                }
                off = e.next;
                count = count + 1;
            },
            None => {
                assert(payload@.subrange(off as int, n as int) =~= payload@.skip(off as int));
                if all_zero(&payload[off..n]) {
                    proof {
                        assert(done + Seq::<(Seq<u8>, u64)>::empty() =~= done);
                    }
                    return Ok(count);
                } else {
                    return Err(Error::CorruptBlock { id: index_id });
                }
            },
        }
    }
    proof {
        assert(payload@.skip(off as int) =~= Seq::<u8>::empty());
        assert(done + Seq::<(Seq<u8>, u64)>::empty() =~= done);
    }
    Ok(count)
}

/// Counts index entries, then binary-searches for the first entry whose
/// `first_key` sorts after `key`. Returns its position and the count, or
/// `None` when `key` sorts before every block.
fn index_upper_bound<E>(payload: &[u8], key: &[u8], index_id: u64) -> (r: Result<
    Option<(usize, usize)>,
    Error<E>,
>)
    ensures
        match index_list(payload@) {
            None => r == Err::<Option<(usize, usize)>, Error<E>>(
                Error::CorruptBlock { id: index_id },
            ),
            Some(l) => match r {
                Ok(Some((u, n))) => {
                    &&& n == l.len()
                    &&& 1 <= u <= n
                    &&& index_sorted(l) ==> is_upper(l, key@, u as int)
                },
                Ok(None) => {
                    &&& l.len() > 0 ==> lex_lt(key@, l[0].0)
                    &&& index_sorted(l) ==> is_upper(l, key@, 0)
                },
                Err(_) => false,
            },
        },
{
    let count: usize = match index_count(payload, index_id) {
        Ok(n) => n,
        Err(e) => {
            return Err(e);
        },
    };
    let ghost l = index_list(payload@)->0;
    let mut lo: usize = 0;
    let mut hi: usize = count;
    while lo < hi
        invariant
            index_list(payload@) == Some(l),
            count == l.len(),
            lo <= hi <= count,
            index_sorted(l) ==> forall|i: int| 0 <= i < lo ==> lex_le(#[trigger] l[i].0, key@),
            index_sorted(l) ==> forall|i: int| hi <= i < count ==> lex_lt(key@, #[trigger] l[i].0),
            hi < count ==> lex_lt(key@, l[hi as int].0),
        decreases hi - lo,
    {
        let mid: usize = lo + (hi - lo) / 2;
        match index_entry_at(payload, mid) {
            None => {
                assert(false);
                return Err(Error::CorruptBlock { id: index_id });
            },
            Some(e) => {
                if bytes_le(e.key, key) {
                    proof {
                        if index_sorted(l) {
                            assert forall|i: int| 0 <= i < mid + 1 implies lex_le(
                                #[trigger] l[i].0,
                                key@,
                            ) by {
                                assert(lex_le(l[i].0, l[mid as int].0));
                                lemma_lex_le_le(l[i].0, l[mid as int].0, key@);
                            }
                        }
                    }
                    lo = mid + 1;
                } else {
                    proof {
                        if index_sorted(l) {
                            assert forall|i: int| mid <= i < count implies lex_lt(
                                key@,
                                #[trigger] l[i].0,
                            ) by {
                                assert(lex_le(l[mid as int].0, l[i].0));
                                lemma_lex_lt_le(key@, l[mid as int].0, l[i].0);
                            }
                        }
                    }
                    hi = mid;
                }
            },
        }
    }
    if lo == 0 {
        return Ok(None);
    }
    Ok(Some((lo, count)))
}

/// Binary-searches the index for the first data block that may hold `key`.
/// Returns the block id and the maximum number of data blocks a point
/// lookup may walk forward from it (the walk stays inside the table), or
/// `None` when `key` sorts before every block.
///
/// A key's version run can straddle data blocks: a block can seal *inside*
/// the run, so the block before the first one led by `key` can hold the
/// run's newest versions. The search therefore lands on the last block with
/// `first_key <= key` and then walks back over every block led by `key`,
/// ending at the last one led by a smaller key (block 0 stays put): the
/// first block whose key range can contain `key`.
///
/// # Errors
///
/// [`Error::CorruptBlock`] when the index does not parse.
pub fn index_lookup<E>(payload: &[u8], key: &[u8], index_id: u64) -> (r: Result<
    Option<(u64, usize)>,
    Error<E>,
>)
    ensures
        match index_list(payload@) {
            None => r == Err::<Option<(u64, usize)>, Error<E>>(
                Error::CorruptBlock { id: index_id },
            ),
            Some(l) => match r {
                Ok(Some((id, left))) => {
                    let p = l.len() - left;
                    &&& 1 <= left <= l.len()
                    &&& id == l[p].1
                    &&& index_sorted(l) ==> is_start(l, key@, p)
                },
                Ok(None) => {
                    &&& l.len() > 0 ==> lex_lt(key@, l[0].0)
                    &&& index_sorted(l) ==> forall|i: int|
                        0 <= i < l.len() ==> lex_lt(key@, #[trigger] l[i].0)
                },
                Err(_) => false,
            },
        },
{
    let ghost l = index_list(payload@)->0;
    let (lo, count): (usize, usize) = match index_upper_bound(payload, key, index_id) {
        Err(e) => {
            return Err(e);
        },
        Ok(None) => {
            return Ok(None);
        },
        Ok(Some(b)) => b,
    };
    let mut pos: usize = lo - 1;
    proof {
        if index_sorted(l) {
            assert forall|i: int| pos < i < l.len() implies lex_le(key@, #[trigger] l[i].0) by {
                lemma_lex_asymmetric(key@, l[i].0);
            }
        }
    }
    let mut stop: bool = false;
    while pos > 0 && !stop
        invariant
            index_list(payload@) == Some(l),
            count == l.len(),
            pos < lo <= count,
            index_sorted(l) ==> is_upper(l, key@, lo as int),
            index_sorted(l) ==> forall|i: int| pos < i < l.len() ==> lex_le(key@, #[trigger] l[i].0),
            stop ==> l[pos as int].0 != key@,
        decreases pos + (if stop {
            0int
        } else {
            1int
        }),
    {
        match index_entry_at(payload, pos) {
            None => {
                assert(false);
                return Err(Error::CorruptBlock { id: index_id });
            },
            Some(e) => {
                if bytes_eq(e.key, key) {
                    proof {
                        lemma_lex_irreflexive(key@);
                    }
                    pos = pos - 1;
                } else {
                    stop = true;
                }
            },
        }
    }
    proof {
        if index_sorted(l) {
            assert(lex_le(l[pos as int].0, key@));
            if pos > 0 {
                lemma_lex_total(l[pos as int].0, key@);
            }
        }
    }
    match index_entry_at(payload, pos) {
        None => {
            assert(false);
            Err(Error::CorruptBlock { id: index_id })
        },
        Some(e) => Ok(Some((e.block_id, count - pos))),
    }
}

/// Returns the last data block whose `first_key` sorts at or before `key`,
/// or `None` when `key` sorts before every block: the greatest entry `<=
/// key` lives in this block or an earlier one.
///
/// # Errors
///
/// [`Error::CorruptBlock`] when the index does not parse.
pub fn index_last_le_block<E>(payload: &[u8], key: &[u8], index_id: u64) -> (r: Result<
    Option<u64>,
    Error<E>,
>)
    ensures
        match index_list(payload@) {
            None => r == Err::<Option<u64>, Error<E>>(Error::CorruptBlock { id: index_id }),
            Some(l) => match r {
                Ok(Some(id)) => exists|u: int|
                    1 <= u <= l.len() && id == (#[trigger] l[u - 1]).1 && (index_sorted(l)
                        ==> is_upper(l, key@, u)),
                Ok(None) => index_sorted(l) ==> is_upper(l, key@, 0),
                Err(_) => false,
            },
        },
{
    let ghost l = index_list(payload@)->0;
    let (lo, count): (usize, usize) = match index_upper_bound(payload, key, index_id) {
        Err(e) => {
            return Err(e);
        },
        Ok(None) => {
            return Ok(None);
        },
        Ok(Some(b)) => b,
    };
    match index_entry_at(payload, lo - 1) {
        None => {
            assert(false);
            Err(Error::CorruptBlock { id: index_id })
        },
        Some(e) => {
            assert(e.block_id == l[lo as int - 1].1);
            Ok(Some(e.block_id))
        },
    }
}

// ---------------------------------------------------------------------
// A data block.

/// The body is that of a sorted group of entries.
pub open spec fn block_wf(p: Seq<u8>) -> bool {
    match body_entries(p) {
        Some(es) => {
            &&& group_ok(es, p.len() as int + 4)
            &&& p == body_of(es, p.len() as int)
            &&& key_sorted(es)
            &&& runs_newest_first(es)
        },
        None => false,
    }
}

/// What a data-block search found, with the entry's sequence number.
pub enum DataHit {
    /// Live value: byte length, sequence number, expiry tick (0 = none).
    Value {
        /// Byte length.
        len: usize,
        /// Sequence number.
        seq: u64,
        /// Expiry tick.
        expire_at: u64,
    },
    /// Deletion marker: sequence number.
    Tombstone(u64),
}

/// What one data block contributed to a point lookup. A key's version run
/// can straddle data blocks, so "not in this block" is not "not in the
/// table": the caller walks forward while a block ends inside the run.
pub enum BlockOutcome {
    /// The newest version with `seq <= max_seq` was found in this block.
    Hit(DataHit),
    /// An entry larger than the key was seen: the key is absent from the
    /// table, later blocks only hold larger keys.
    Absent,
    /// The block ended (or zero padding began) with no larger key seen:
    /// the key was not found in this block, but its version run may
    /// continue in the next data block.
    Truncated,
}

/// The hit is entry `e`, whose value is in `buf`.
pub open spec fn hit_is(h: DataHit, e: Rec, buf: Seq<u8>) -> bool {
    match h {
        DataHit::Value { len, seq, expire_at } => {
            &&& !e.tombstone
            &&& len == e.val.len()
            &&& seq == e.seq
            &&& expire_at == e.expire_at
            &&& len <= buf.len()
            &&& buf.take(len as int) == e.val
        },
        DataHit::Tombstone(seq) => e.tombstone && seq == e.seq,
    }
}

/// The outcome of a search in a sorted group.
pub open spec fn outcome_on<E>(
    es: Seq<Rec>,
    key: Seq<u8>,
    max_seq: u64,
    r: Result<BlockOutcome, Error<E>>,
    buf: Seq<u8>,
) -> bool {
    match r {
        Ok(BlockOutcome::Hit(h)) => exists|i: int| #[trigger]
            is_hit(es, key, max_seq, i) && hit_is(h, es[i], buf),
        Ok(BlockOutcome::Absent) => {
            &&& forall|i: int| !#[trigger] visible_version(es, key, max_seq, i)
            &&& exists|i: int| 0 <= i < es.len() && lex_lt(key, #[trigger] es[i].key)
        },
        Ok(BlockOutcome::Truncated) => {
            &&& forall|i: int| !#[trigger] visible_version(es, key, max_seq, i)
            &&& forall|i: int| 0 <= i < es.len() ==> lex_le(#[trigger] es[i].key, key)
        },
        Err(Error::BufferTooSmall { need }) => exists|i: int| #[trigger]
            is_hit(es, key, max_seq, i) && !es[i].tombstone && need == es[i].val.len() && need
                > buf.len(),
        Err(_) => false,
    }
}

/// Whatever the block holds: a hit is a version of the key stored in it.
pub open spec fn hit_stored(
    payload: Seq<u8>,
    key: Seq<u8>,
    max_seq: u64,
    h: DataHit,
    buf: Seq<u8>,
) -> bool {
    exists|off: int|
        0 <= off <= payload.len() && (#[trigger] ent_parse(payload.skip(off)) matches Some((e, _))
            && e.key == key && e.seq <= max_seq && hit_is(h, e, buf))
}

/// Where the restart tail of a block begins, `None` when it has none.
pub open spec fn tail_at(p: Seq<u8>) -> Option<int> {
    let n = le_value(p.subrange(p.len() - 2, p.len() as int)) as int;
    if p.len() < 6 || 2 + 2 * n > p.len() {
        None
    } else {
        Some(p.len() - (2 + 2 * n))
    }
}

/// A search of the block may begin at `off`: at the front, or where a
/// restart points.
pub open spec fn entry_point(p: Seq<u8>, tail: int, off: int) -> bool {
    off == 0 || exists|i: int|
        0 <= i && tail + 2 * i + 4 <= p.len() && off == #[trigger] restart_value(p, tail, i)
            && off < tail
}

/// What restart `i` of a block says.
pub open spec fn restart_value(p: Seq<u8>, tail: int, i: int) -> int {
    le_value(p.subrange(tail + 2 * i, tail + 2 * i + 2)) as int
}

/// The entry at `a` ends at `b` and is no version of the key at `max_seq`.
pub open spec fn passed(
    p: Seq<u8>,
    tail: int,
    key: Seq<u8>,
    max_seq: u64,
    a: int,
    b: int,
) -> bool {
    &&& 0 <= a < tail
    &&& ent_parse(p.skip(a)) matches Some((e, n)) && b == a + n && !(e.key == key && e.seq
        <= max_seq)
}

/// A search went through the block's entries at `stops`, up to the last.
#[verifier::opaque]
pub open spec fn trail(
    p: Seq<u8>,
    tail: int,
    key: Seq<u8>,
    max_seq: u64,
    stops: Seq<int>,
) -> bool {
    &&& stops.len() >= 1
    &&& entry_point(p, tail, stops[0])
    &&& forall|i: int|
        0 <= i < stops.len() - 1 ==> passed(p, tail, key, max_seq, #[trigger] stops[i], stops[i
            + 1])
}

proof fn lemma_trail_start(p: Seq<u8>, tail: int, key: Seq<u8>, max_seq: u64, off: int)
    requires
        entry_point(p, tail, off),
    ensures
        trail(p, tail, key, max_seq, seq![off]),
{
    reveal(trail);
}

proof fn lemma_trail_push(
    p: Seq<u8>,
    tail: int,
    key: Seq<u8>,
    max_seq: u64,
    stops: Seq<int>,
    next: int,
)
    requires
        trail(p, tail, key, max_seq, stops),
        passed(p, tail, key, max_seq, stops.last(), next),
    ensures
        trail(p, tail, key, max_seq, stops.push(next)),
{
    reveal(trail);
    let s = stops.push(next);
    assert forall|i: int| 0 <= i < s.len() - 1 implies passed(
        p,
        tail,
        key,
        max_seq,
        #[trigger] s[i],
        s[i + 1],
    ) by {
        assert(s[i] == stops[i]);
        if i < stops.len() - 1 {
            assert(s[i + 1] == stops[i + 1]);
        }
    }
    assert(s[0] == stops[0]);
}

/// Whatever the block holds: a search that found nothing went through whole
/// entries up to another key, or up to the padding or the tail.
pub open spec fn missed(
    p: Seq<u8>,
    key: Seq<u8>,
    max_seq: u64,
    out: BlockOutcome,
    stops: Seq<int>,
) -> bool {
    let tail = tail_at(p)->0;
    let at = stops.last();
    &&& tail_at(p) is Some
    &&& trail(p, tail, key, max_seq, stops)
    &&& match out {
        BlockOutcome::Absent => at < tail && (ent_parse(p.skip(at)) matches Some((e, _)) && e.key
            != key),
        BlockOutcome::Truncated => at >= tail || (ent_parse(p.skip(at)) is None && all_zeros(
            p.subrange(at, tail),
        )),
        BlockOutcome::Hit(_) => false,
    }
}

/// Restart `r` of a block points at entry `16 * r`.
proof fn lemma_restart_bytes(es: Seq<Rec>, n: int, r: int)
    requires
        0 <= r < n,
    ensures
        restarts_bytes(es, n).len() == 2 * n,
        restarts_bytes(es, n).subrange(2 * r, 2 * r + 2) == le_bytes(off_of(es, 16 * r) as nat, 2),
    decreases n,
{
    broadcast use lemma_le_bytes_len;

    super::format::lemma_restarts_len(es, n);
    super::format::lemma_restarts_len(es, n - 1);
    if r < n - 1 {
        lemma_restart_bytes(es, n - 1, r);
        assert(restarts_bytes(es, n).subrange(2 * r, 2 * r + 2) =~= restarts_bytes(
            es,
            n - 1,
        ).subrange(2 * r, 2 * r + 2));
    } else {
        assert(restarts_bytes(es, n).subrange(2 * r, 2 * r + 2) =~= le_bytes(
            off_of(es, 16 * r) as nat,
            2,
        ));
    }
}

/// What a restart of a written block reads as.
proof fn lemma_restart(p: Seq<u8>, es: Seq<Rec>, r: int)
    requires
        group_ok(es, p.len() as int + 4),
        p == body_of(es, p.len() as int),
        0 <= r < restart_count(es.len() as int),
    ensures
        ({
            let rc = restart_count(es.len() as int);
            let end = p.len() - (2 * rc + 2);
            &&& 0 <= 16 * r < es.len()
            &&& le_value(p.subrange(end + 2 * r, end + 2 * r + 2)) == off_of(es, 16 * r)
            &&& 0 <= off_of(es, 16 * r) < end
            &&& ent_parse(p.skip(off_of(es, 16 * r))) matches Some((e, n)) && e == es[16 * r]
        }),
{
    let block = p.len() as int + 4;
    let rc = restart_count(es.len() as int);
    let end = p.len() - (2 * rc + 2);
    lemma_body_parts(es, block);
    lemma_restart_bytes(es, rc, r);
    lemma_pow256();
    assert(off_of(es, 16 * r) <= 0xFFFF);
    lemma_le_roundtrip(off_of(es, 16 * r) as nat, 2);
    assert(p.subrange(end + 2 * r, end + 2 * r + 2) =~= p.subrange(end, block - 6).subrange(
        2 * r,
        2 * r + 2,
    ));
    lemma_parse_at(p, es, 16 * r);
}

/// Entry `j` of a written block parses at its offset.
proof fn lemma_parse_at(p: Seq<u8>, es: Seq<Rec>, j: int)
    requires
        group_ok(es, p.len() as int + 4),
        p == body_of(es, p.len() as int),
        0 <= j < es.len(),
    ensures
        ({
            let end = p.len() - (2 * restart_count(es.len() as int) + 2);
            let off = off_of(es, j);
            &&& 0 <= off < off_of(es, j + 1) <= end
            &&& ent_parse(p.skip(off)) matches Some((e, n)) && e == es[j] && off + n == off_of(
                es,
                j + 1,
            )
        }),
{
    let block = p.len() as int + 4;
    let end = p.len() - (2 * restart_count(es.len() as int) + 2);
    lemma_body_parts(es, block);
    let rest = p.skip(ents_len(es) as int);
    assert(p =~= super::format::ents_bytes(es) + rest) by {
        super::format::lemma_ents_bytes_len(es);
    }
    lemma_entry_at(es, j, rest);
}

/// Behind the last entry of a written block there is only padding.
proof fn lemma_parse_end(p: Seq<u8>, es: Seq<Rec>)
    requires
        group_ok(es, p.len() as int + 4),
        p == body_of(es, p.len() as int),
    ensures
        ({
            let end = p.len() - (2 * restart_count(es.len() as int) + 2);
            let off = ents_len(es) as int;
            &&& off == off_of(es, es.len() as int)
            &&& 0 <= off <= end
            &&& all_zeros(p.subrange(off, end))
        }),
{
    let block = p.len() as int + 4;
    let end = p.len() - (2 * restart_count(es.len() as int) + 2);
    lemma_body_parts(es, block);
    assert(es.take(es.len() as int) =~= es);
    let off = ents_len(es) as int;
    assert(p.subrange(off, end) =~= p.take(end).subrange(off, end));
    assert(p.take(end).subrange(off, end) =~= zeros(end - off));
}

/// The offset of restart `i`, `None` when it does not point at an entry.
fn restart_at(payload: &[u8], rstart: usize, i: usize) -> (r: Option<usize>)
    requires
        rstart + 2 * i + 2 <= payload@.len(),
    ensures
        ({
            let v = le_value(payload@.subrange(rstart + 2 * i, rstart + 2 * i + 2));
            r == (if v < rstart {
                Some(v as usize)
            } else {
                None
            })
        }),
{
    let n: usize = payload.len();
    let off: u64 = load_le(payload, rstart + 2 * i, 2);
    if off >= rstart as u64 {
        None
    } else {
        Some(off as usize)
    }
}

/// The first restart whose entry sorts at or after `key`.
fn restart_search(payload: &[u8], key: &[u8], rstart: usize, rcount: usize) -> (r: Option<usize>)
    requires
        rstart + 2 * rcount + 2 == payload@.len(),
        rcount <= 0xFFFF,
        rcount == le_value(payload@.subrange(payload@.len() - 2, payload@.len() as int)),
    ensures
        block_wf(payload@) ==> ({
            let es = body_entries(payload@)->0;
            r matches Some(lo) && {
                &&& lo <= rcount
                &&& rcount == restart_count(es.len() as int)
                &&& forall|i: int|
                    #![trigger es[16 * i]]
                    0 <= i < lo ==> lex_lt(es[16 * i].key, key@)
            }
        }),
        r matches Some(lo) ==> lo <= rcount,
{
    let ghost p = payload@;
    let ghost wf = block_wf(p);
    let ghost es = body_entries(p)->0;
    proof {
        if wf {
            lemma_body_parts(es, p.len() as int + 4);
            law_body_entries(es, p.len() as int + 4);
        }
    }
    let mut lo: usize = 0;
    let mut hi: usize = rcount;
    while lo < hi
        invariant
            p == payload@,
            wf == block_wf(p),
            es == body_entries(p)->0,
            rstart + 2 * rcount + 2 == p.len(),
            rcount <= 0xFFFF,
            lo <= hi <= rcount,
            wf ==> rcount == restart_count(es.len() as int),
            wf ==> forall|i: int|
                #![trigger es[16 * i]]
                0 <= i < lo ==> lex_lt(es[16 * i].key, key@),
        decreases hi - lo,
    {
        let mid: usize = lo + (hi - lo) / 2;
        proof {
            if wf {
                lemma_restart(p, es, mid as int);
            }
        }
        match restart_at(payload, rstart, mid) {
            None => {
                return None;
            },
            Some(roff) => {
                match data_entry_parse(payload, roff) {
                    None => {
                        return None;
                    },
                    Some(e) => {
                        if bytes_lt(e.key, key) {
                            proof {
                                if wf {
                                    assert forall|i: int|
                                        #![trigger es[16 * i]]
                                        0 <= i < mid + 1 implies lex_lt(es[16 * i].key, key@) by {
                                        assert(lex_le(es[16 * i].key, es[16 * mid].key));
                                        lemma_lex_le_lt(es[16 * i].key, es[16 * mid].key, key@);
                                    }
                                }
                            }
                            lo = mid + 1;
                        } else {
                            hi = mid;
                        }
                    },
                }
            },
        }
    }
    Some(lo)
}

/// Searches one data block: restart-point binary search, then a linear scan.
/// Selects the newest version with `seq <= max_seq`, reporting
/// [`BlockOutcome`] so the caller can continue a version run into the next
/// data block.
///
/// # Errors
///
/// [`Error::BufferTooSmall`] when `val_buf` is smaller than the value, or
/// [`Error::CorruptBlock`] when the block holds anything but entries,
/// padding and restarts where one is looked for.
#[verifier::rlimit(60)]
pub fn data_lookup<E>(
    payload: &[u8],
    key: &[u8],
    val_buf: &mut [u8],
    block_id: u64,
    max_seq: u64,
) -> (r: Result<BlockOutcome, Error<E>>)
    ensures
        final(val_buf)@.len() == old(val_buf)@.len(),
        block_wf(payload@) ==> outcome_on(
            body_entries(payload@)->0,
            key@,
            max_seq,
            r,
            final(val_buf)@,
        ),
        r matches Ok(BlockOutcome::Hit(h)) ==> hit_stored(
            payload@,
            key@,
            max_seq,
            h,
            final(val_buf)@,
        ),
        // Bytes that are no entry where one is looked for are never passed
        // over in silence.
        r matches Ok(out) ==> out is Hit || exists|stops: Seq<int>| #[trigger]
            missed(payload@, key@, max_seq, out, stops),
        tail_at(payload@) is None ==> r == Err::<BlockOutcome, Error<E>>(
            Error::CorruptBlock { id: block_id },
        ),
        r matches Err(e) ==> e is BufferTooSmall || e == (Error::<E>::CorruptBlock { id: block_id }),
{
    let size: usize = payload.len();
    let ghost p = payload@;
    let ghost wf = block_wf(p);
    let ghost es = body_entries(p)->0;
    let ghost end = p.len() - (2 * restart_count(es.len() as int) + 2);
    proof {
        lemma_pow256();
        if wf {
            lemma_body_parts(es, p.len() as int + 4);
        }
    }
    if size < 6 {
        return Err(Error::CorruptBlock { id: block_id });
    }
    let rcount: usize = load_le(payload, size - 2, 2) as usize;
    if 2 + 2 * rcount > size {
        return Err(Error::CorruptBlock { id: block_id });
    }
    let rstart: usize = size - (2 + 2 * rcount);
    let lo: usize = match restart_search(payload, key, rstart, rcount) {
        None => {
            return Err(Error::CorruptBlock { id: block_id });
        },
        Some(lo) => lo,
    };
    let ghost mut j: int = 0;
    let mut off: usize = 0;
    if lo > 0 {
        proof {
            if wf {
                lemma_restart(p, es, lo - 1);
                j = 16 * (lo - 1);
            }
        }
        match restart_at(payload, rstart, lo - 1) {
            None => {
                return Err(Error::CorruptBlock { id: block_id });
            },
            Some(o) => {
                off = o;
            },
        }
    }
    proof {
        if wf {
            if lo == 0 {
                assert(es.take(0) =~= Seq::<Rec>::empty());
            } else {
                assert(lex_lt(es[16 * (lo - 1)].key, key@));
            }
            assert forall|i: int| 0 <= i < j implies lex_lt(#[trigger] es[i].key, key@) by {
                assert(lex_le(es[i].key, es[j].key));
                lemma_lex_le_lt(es[i].key, es[j].key, key@);
            }
            assert forall|i: int| 0 <= i < j implies !#[trigger] visible_version(
                es,
                key@,
                max_seq,
                i,
            ) by {
                assert(lex_lt(es[i].key, key@));
                lemma_lex_irreflexive(key@);
            }
            assert forall|i: int| 0 <= i < j implies lex_le(#[trigger] es[i].key, key@) by {
                lemma_lex_asymmetric(es[i].key, key@);
            }
        }
    }
    let ghost mut stops: Seq<int> = seq![off as int];
    proof {
        if lo > 0 {
            assert(off == restart_value(p, rstart as int, lo - 1));
        }
        assert(entry_point(p, rstart as int, off as int));
        lemma_trail_start(p, rstart as int, key@, max_seq, off as int);
    }
    let mut in_run: bool = false;
    while off < rstart
        invariant
            tail_at(p) == Some(rstart as int),
            off <= size,
            trail(p, rstart as int, key@, max_seq, stops),
            stops.last() == off,
            size == p.len(),
            p == payload@,
            wf == block_wf(p),
            es == body_entries(p)->0,
            end == p.len() - (2 * restart_count(es.len() as int) + 2),
            rstart <= size,
            wf ==> rstart == end,
            wf ==> 0 <= j <= es.len() && off == off_of(es, j),
            wf ==> forall|i: int| 0 <= i < j ==> lex_le(#[trigger] es[i].key, key@),
            wf ==> forall|i: int|
                0 <= i < j ==> !#[trigger] visible_version(es, key@, max_seq, i),
            wf && in_run ==> j > 0 && es[j - 1].key == key@,
            val_buf@ == old(val_buf)@,
        decreases size - off,
    {
        match data_entry_parse(payload, off) {
            None => {
                proof {
                    if wf {
                        if j < es.len() {
                            lemma_parse_at(p, es, j);
                        }
                        lemma_parse_end(p, es);
                    }
                }
                return if all_zero(&payload[off..rstart]) {
                    assert(missed(p, key@, max_seq, BlockOutcome::Truncated, stops));
                    Ok(BlockOutcome::Truncated)
                } else {
                    Err(Error::CorruptBlock { id: block_id })
                };
            },
            Some(e) => {
                proof {
                    if wf {
                        if j == es.len() {
                            lemma_parse_end(p, es);
                            lemma_no_entry_at(p, es, off as int, end);
                        }
                        lemma_parse_at(p, es, j);
                        assert(e.rec() == es[j]);
                    }
                }
                if bytes_eq(e.key, key) {
                    if e.seq <= max_seq {
                        proof {
                            if wf {
                                assert(ent_ok(es[j]));
                                assert(visible_version(es, key@, max_seq, j));
                                assert(is_hit(es, key@, max_seq, j));
                            }
                        }
                        if e.tombstone {
                            let h = DataHit::Tombstone(e.seq);
                            assert(ent_parse(payload@.skip(off as int)) matches Some((x, _))
                                && x.key == key@ && x.seq <= max_seq && hit_is(h, x, val_buf@));
                            return Ok(BlockOutcome::Hit(h));
                        }
                        let len: usize = e.val.len();
                        if len > val_buf.len() {
                            return Err(Error::BufferTooSmall { need: len });
                        }
                        copy_into(val_buf, 0, e.val);
                        let h = DataHit::Value { len, seq: e.seq, expire_at: e.expire_at };
                        proof {
                            reveal(spliced);
                            assert(val_buf@.take(len as int) =~= e.val@);
                            assert(ent_parse(payload@.skip(off as int)) matches Some((x, _))
                                && x.key == key@ && x.seq <= max_seq && hit_is(h, x, val_buf@));
                        }
                        return Ok(BlockOutcome::Hit(h));
                    }
                    in_run = true;
                    proof {
                        if wf {
                            lemma_lex_irreflexive(key@);
                        }
                    }
                } else if in_run || !bytes_lt(e.key, key) {
                    proof {
                        if wf {
                            lemma_lex_total(es[j].key, key@);
                            if j > 0 {
                                assert(lex_le(es[j - 1].key, es[j].key));
                            }
                            assert(lex_lt(key@, es[j].key));
                            assert forall|i: int| !#[trigger] visible_version(
                                es,
                                key@,
                                max_seq,
                                i,
                            ) by {
                                if j <= i < es.len() {
                                    assert(lex_le(es[j].key, es[i].key));
                                    lemma_lex_lt_le(key@, es[j].key, es[i].key);
                                    lemma_lex_irreflexive(key@);
                                }
                            }
                        }
                    }
                    assert(missed(p, key@, max_seq, BlockOutcome::Absent, stops));
                    return Ok(BlockOutcome::Absent);
                } else {
                    proof {
                        if wf {
                            lemma_lex_asymmetric(es[j].key, key@);
                        }
                    }
                }
                proof {
                    assert(ent_parse(p.skip(off as int)) matches Some((x, n)) && x == e.rec()
                        && e.next == off + n);
                    lemma_trail_push(p, rstart as int, key@, max_seq, stops, e.next as int);
                    stops = stops.push(e.next as int);
                }
                off = e.next;
                proof {
                    j = j + 1;
                }
            },
        }
    }
    proof {
        if wf {
            if j < es.len() {
                lemma_parse_at(p, es, j);
            }
        }
        assert(missed(p, key@, max_seq, BlockOutcome::Truncated, stops));
    }
    Ok(BlockOutcome::Truncated)
}

/// Padding holds no entry, also where it runs into the restart tail: that
/// starts with the offset of the first entry, which is zero.
proof fn lemma_no_entry_at(p: Seq<u8>, es: Seq<Rec>, off: int, end: int)
    requires
        group_ok(es, p.len() as int + 4),
        p == body_of(es, p.len() as int),
        end == p.len() - (2 * restart_count(es.len() as int) + 2),
        0 <= off < end,
        all_zeros(p.subrange(off, end)),
    ensures
        ent_parse(p.skip(off)) is None,
{
    let s = p.skip(off);
    let rc = restart_count(es.len() as int);
    lemma_body_parts(es, p.len() as int + 4);
    lemma_restart_bytes(es, rc, 0);
    assert(es.take(0) =~= Seq::<Rec>::empty());
    let z = le_bytes(0, 2);
    assert(z =~= seq![0u8, 0u8]) by {
        reveal_with_fuel(le_bytes, 3);
    }
    assert(p[end] == p.subrange(end, p.len() - 2).subrange(0, 2)[0]);
    assert(p.subrange(off, end)[0] == 0);
    if s.len() >= 13 {
        assert(s[0] == 0);
        assert(s[1] == 0) by {
            if off + 1 < end {
                assert(p.subrange(off, end)[1] == 0);
            }
        }
        assert(s.subrange(0, 2) =~= z);
        lemma_pow256();
        lemma_le_roundtrip(0, 2);
    }
}

} // verus!

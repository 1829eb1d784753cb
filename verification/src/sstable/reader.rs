//! Point-lookup reader over one table.

use vstd::prelude::*;

use super::block::{
    check_block_crc, inflate_data_block, parse_footer, rdel_block_count, rdel_parse_at, Footer,
};
use super::bloom::{bloom_has, bloom_maybe_contains};
use super::format::{
    crc_ok, foot_of, index_list, logical_of, payload_of, rdels_in, FootV, RdelV, CRC_LEN,
};
use super::search::{
    data_lookup, hit_is, hit_stored, index_lookup, is_start, missed, outcome_on, BlockOutcome,
    DataHit,
};
use super::table::{
    group_start, lemma_flat_at, lemma_flat_group, lemma_stored_index_sorted, rdel_best,
    rdel_covers, section_list, stored_block_ok, stored_group, stored_groups, stored_index,
    stored_recs, stored_wf,
};
use crate::bytes::{
    bytes_le, bytes_lt, lemma_lex_irreflexive, lemma_lex_le_lt, lemma_lex_lt_le, lex_le, lex_lt,
};
use crate::cache::{
    law_put_then_hit, slot_for, slot_tagged, tallied, BlockCache, CachePort, NoCache,
};
use crate::device::BlockDevice;
use crate::error::Error;
use crate::memtable::{is_hit, visible_version, Rec};

verus! {

/// What the cache holds of table `t` is what the device holds.
pub open spec fn coherent(
    images: Map<(u32, u64), Seq<u8>>,
    c: Map<u64, Seq<u8>>,
    t: u32,
) -> bool {
    forall|b: u64| #[trigger] images.dom().contains((t, b)) ==> images[(t, b)] == c[b]
}

/// Reading through the cache kept it coherent for every table.
pub open spec fn still_coherent(
    before: Map<(u32, u64), Seq<u8>>,
    after: Map<(u32, u64), Seq<u8>>,
    c: Map<u64, Seq<u8>>,
) -> bool {
    forall|t: u32| coherent(before, c, t) ==> #[trigger] coherent(after, c, t)
}

/// Reading through the cache dropped images or added ones of table `t`, as
/// the device holds them, of blocks in `[lo, hi)`.
pub open spec fn adds_only(
    before: Map<(u32, u64), Seq<u8>>,
    after: Map<(u32, u64), Seq<u8>>,
    c: Map<u64, Seq<u8>>,
    t: u32,
    lo: int,
    hi: int,
) -> bool {
    forall|k: (u32, u64)| #[trigger]
        after.dom().contains(k) ==> (before.dom().contains(k) && after[k] == before[k]) || (k.0 == t
            && lo <= k.1 < hi && after[k] == c[k.1])
}

/// Two reads in a row, each of blocks in `[lo, hi)`.
pub proof fn lemma_adds_trans(
    a: Map<(u32, u64), Seq<u8>>,
    b: Map<(u32, u64), Seq<u8>>,
    d: Map<(u32, u64), Seq<u8>>,
    c: Map<u64, Seq<u8>>,
    t: u32,
    lo: int,
    hi: int,
    lo2: int,
    hi2: int,
)
    requires
        adds_only(a, b, c, t, lo, hi),
        adds_only(b, d, c, t, lo2, hi2),
        lo <= lo2,
        hi2 <= hi,
    ensures
        adds_only(a, d, c, t, lo, hi),
{
    assert forall|k: (u32, u64)| #[trigger] d.dom().contains(k) implies (a.dom().contains(k) && d[k]
        == a[k]) || (k.0 == t && lo <= k.1 < hi && d[k] == c[k.1]) by {
        if b.dom().contains(k) && d[k] == b[k] {
        }
    }
}

/// Every block that a lookup in the table may read lies in `[lo, hi)`.
pub open spec fn spans(c: Map<u64, Seq<u8>>, f: FootV, lo: int, hi: int) -> bool {
    &&& lo <= f.bloom_block < hi
    &&& lo <= f.index_block < hi
    &&& forall|i: int|
        0 <= i < stored_index(c, f.index_block).len() ==> lo <= (#[trigger] stored_index(
            c,
            f.index_block,
        )[i]).1 < hi
}

/// Only blocks of the table were added.
pub open spec fn adds_spanned(
    before: Map<(u32, u64), Seq<u8>>,
    after: Map<(u32, u64), Seq<u8>>,
    c: Map<u64, Seq<u8>>,
    t: u32,
    f: FootV,
) -> bool {
    forall|lo: int, hi: int| #[trigger] spans(c, f, lo, hi) ==> adds_only(before, after, c, t, lo, hi)
}

/// One more block of the table is read.
proof fn lemma_adds_spanned(
    a: Map<(u32, u64), Seq<u8>>,
    b: Map<(u32, u64), Seq<u8>>,
    d: Map<(u32, u64), Seq<u8>>,
    c: Map<u64, Seq<u8>>,
    t: u32,
    f: FootV,
    id: u64,
)
    requires
        adds_spanned(a, b, c, t, f),
        adds_only(b, d, c, t, id as int, id + 1),
        id == f.bloom_block || id == f.index_block || exists|i: int|
            0 <= i < stored_index(c, f.index_block).len() && (#[trigger] stored_index(
                c,
                f.index_block,
            )[i]).1 == id,
    ensures
        adds_spanned(a, d, c, t, f),
{
    assert forall|lo: int, hi: int| #[trigger] spans(c, f, lo, hi) implies adds_only(
        a,
        d,
        c,
        t,
        lo,
        hi,
    ) by {
        lemma_adds_trans(a, b, d, c, t, lo, hi, id as int, id + 1);
    }
}

/// How a read goes through the cache: it is looked up, and the image of a
/// block that was not held is put in once the device gave it.
pub open spec fn read_through<C: CachePort<BLOCK>, const BLOCK: usize>(
    a: &C,
    b: &C,
    table_id: u32,
    block_id: u64,
    got: Option<Seq<u8>>,
    hot: bool,
) -> bool {
    exists|m: C| #[trigger]
        C::looked_up(a, &m, table_id, block_id) && if a.images().dom().contains(
            (table_id, block_id),
        ) || got is None {
            *b == m
        } else {
            C::inserted(&m, b, table_id, block_id, got->0, hot)
        }
}

/// A block read through a cache with a slot is held by it from then on, so
/// that the next read of it is a hit.
pub proof fn law_read_is_cached<const BLOCK: usize, const SLOTS: usize>(
    a: &BlockCache<BLOCK, SLOTS>,
    b: &BlockCache<BLOCK, SLOTS>,
    table_id: u32,
    block_id: u64,
    data: Seq<u8>,
    hot: bool,
)
    requires
        SLOTS > 0,
        a.wf(),
        b.wf(),
        read_through::<BlockCache<BLOCK, SLOTS>, BLOCK>(
            a,
            b,
            table_id,
            block_id,
            Some(data),
            hot,
        ),
    ensures
        b.images().dom().contains((table_id, block_id)),
        !a.images().dom().contains((table_id, block_id)) ==> b.images()[(table_id, block_id)]
            == data,
{
    let held = a.images().dom().contains((table_id, block_id));
    let m = choose|m: BlockCache<BLOCK, SLOTS>| #[trigger]
        BlockCache::<BLOCK, SLOTS>::looked_up(a, &m, table_id, block_id) && if held {
            *b == m
        } else {
            BlockCache::<BLOCK, SLOTS>::inserted(&m, b, table_id, block_id, data, hot)
        };
    if held {
        let i = slot_for(a.slots(), table_id, block_id);
        assert(slot_tagged(a.slots(), table_id, block_id, i));
        assert(slot_tagged(b.slots(), table_id, block_id, i));
    } else {
        law_put_then_hit(
            a.slots(),
            a.hand(),
            b.slots(),
            b.hand(),
            table_id,
            block_id,
            data,
            hot,
        );
    }
}

/// Reads one `SSTable` block through the block cache.
///
/// On a hit the cached image is copied into `scratch` and no device I/O
/// happens; on a miss the block is read from the device and then inserted
/// (with `hot` setting the CLOCK reference bit). The cached bytes are the
/// physical image exactly as the device returned them, so every check the
/// caller runs afterwards behaves byte-identically to a re-read, including
/// corruption semantics. `table_id` is the owning table's manifest id.
///
/// # Errors
///
/// [`Error::Device`] on I/O failure.
pub fn read_block_cached<D: BlockDevice, C: CachePort<BLOCK>, const BLOCK: usize>(
    device: &D,
    cache: &mut C,
    table_id: u32,
    block_id: u64,
    scratch: &mut [u8; BLOCK],
    hot: bool,
) -> (r: Result<(), Error<D::Error>>)
    requires
        D::BLOCK == BLOCK,
        old(cache).port_wf(),
    ensures
        final(cache).port_wf(),
        still_coherent(old(cache).images(), final(cache).images(), device.content()),
        adds_only(
            old(cache).images(),
            final(cache).images(),
            device.content(),
            table_id,
            block_id as int,
            block_id + 1,
        ),
        match r {
            Ok(()) => coherent(old(cache).images(), device.content(), table_id) ==> final(scratch)@
                == device.content()[block_id],
            Err(e) => e is Device,
        },
        ({
            let held = old(cache).images().dom().contains((table_id, block_id));
            &&& tallied(old(cache).counters(), final(cache).counters(), C::counts(), held)
            &&& held ==> r is Ok && final(scratch)@ == old(cache).images()[(table_id, block_id)]
            &&& !held && r is Ok ==> final(scratch)@ == device.content()[block_id]
        }),
        read_through(
            &*old(cache),
            &*final(cache),
            table_id,
            block_id,
            if r is Ok {
                Some(final(scratch)@)
            } else {
                None
            },
            hot,
        ),
{
    let hit: bool = cache.get_into(table_id, block_id, scratch);
    let ghost seen = *cache;
    assert(C::looked_up(&*old(cache), &seen, table_id, block_id));
    if hit {
        return Ok(());
    }
    match device.read_block(block_id, scratch) {
        Ok(()) => {},
        Err(e) => {
            return Err(Error::Device(e));
        },
    }
    let ghost mid = cache.images();
    cache.put(table_id, block_id, scratch, hot);
    proof {
        let c = device.content();
        assert forall|t: u32| coherent(mid, c, t) implies #[trigger] coherent(
            cache.images(),
            c,
            t,
        ) by {
            assert forall|b: u64| #[trigger]
                cache.images().dom().contains((t, b)) implies cache.images()[(t, b)] == c[b] by {
                if mid.dom().contains((t, b)) && cache.images()[(t, b)] == mid[(t, b)] {
                    assert(mid[(t, b)] == c[b]);
                }
            }
        }
    }
    Ok(())
}

/// Reads and verifies a table footer, returning its index block id. Used by
/// the scan iterator to position cursors via the block index without opening
/// a full [`TableReader`].
///
/// # Errors
///
/// [`Error::CorruptBlock`] when the footer is missing or fails
/// verification, or [`Error::Device`] on I/O failure.
pub fn footer_index_block<D: BlockDevice, C: CachePort<BLOCK>, const BLOCK: usize>(
    device: &D,
    cache: &mut C,
    table_id: u32,
    scratch: &mut [u8; BLOCK],
    footer_block: u64,
) -> (r: Result<u64, Error<D::Error>>)
    requires
        D::BLOCK == BLOCK,
        BLOCK >= 49,
        old(cache).port_wf(),
    ensures
        final(cache).port_wf(),
        still_coherent(old(cache).images(), final(cache).images(), device.content()),
        coherent(old(cache).images(), device.content(), table_id) ==> match r {
            Ok(id) => foot_of(device.content()[footer_block]) matches Some(f) && f.index_block == id,
            Err(Error::CorruptBlock { id }) => id == footer_block && foot_of(
                device.content()[footer_block],
            ) is None,
            Err(e) => e is Device,
        },
{
    match read_block_cached(device, cache, table_id, footer_block, scratch, true) {
        Ok(()) => {},
        Err(e) => {
            return Err(e);
        },
    }
    match parse_footer::<D::Error, BLOCK>(scratch, footer_block) {
        Ok(f) => Ok(f.index_block),
        Err(e) => Err(e),
    }
}

/// The best cover in a list of tombstones extended by one.
proof fn lemma_best_push(
    rs: Seq<RdelV>,
    r: RdelV,
    key: Seq<u8>,
    max_seq: u64,
    best: Option<u64>,
    next: Option<u64>,
)
    requires
        rdel_best(rs, key, max_seq, best),
        next == (if r.seq <= max_seq && lex_le(r.start, key) && lex_lt(key, r.end) && (best is None
            || r.seq > best->0) {
            Some(r.seq)
        } else {
            best
        }),
    ensures
        rdel_best(rs.push(r), key, max_seq, next),
{
    let w = rs.push(r);
    let n = rs.len() as int;
    assert forall|i: int| 0 <= i < n implies #[trigger] rdel_covers(w, key, max_seq, i)
        == rdel_covers(rs, key, max_seq, i) by {}
    match next {
        Some(q) => {
            if next == best {
                let i = choose|i: int| #[trigger]
                    rdel_covers(rs, key, max_seq, i) && rs[i].seq == q;
                assert(rdel_covers(w, key, max_seq, i) && w[i].seq == q);
            } else {
                assert(rdel_covers(w, key, max_seq, n) && w[n].seq == q);
            }
            assert forall|i: int| #[trigger] rdel_covers(w, key, max_seq, i) implies w[i].seq
                <= q by {
                if i < n {
                    assert(rdel_covers(rs, key, max_seq, i));
                }
            }
        },
        None => {
            assert forall|i: int| !#[trigger] rdel_covers(w, key, max_seq, i) by {
                if 0 <= i < n {
                    assert(!rdel_covers(rs, key, max_seq, i));
                }
            }
        },
    }
}

/// A parse of more tombstones, behind those already read.
spec fn behind_rdels(done: Seq<RdelV>, r: Option<Seq<RdelV>>) -> Option<Seq<RdelV>> {
    match r {
        None => None,
        Some(l) => Some(done + l),
    }
}

/// Folds one verified rdel block into `best`; `None` when an entry does not
/// parse. The ghost list is what was read before.
fn cover_in_block(
    block: &[u8],
    count: usize,
    key: &[u8],
    max_seq: u64,
    best: Option<u64>,
    Ghost(before): Ghost<Seq<RdelV>>,
) -> (r: Option<Option<u64>>)
    requires
        rdel_best(before, key@, max_seq, best),
    ensures
        match rdels_in(block@, count as nat) {
            None => r is None,
            Some(more) => r matches Some(b) && rdel_best(before + more, key@, max_seq, b),
        },
{
    let mut best: Option<u64> = best;
    let mut off: usize = 0;
    let mut i: usize = 0;
    let ghost mut done: Seq<RdelV> = Seq::empty();
    let ghost whole = rdels_in(block@, count as nat);
    proof {
        assert(block@.skip(0) =~= block@);
        assert(before + done =~= before);
        if whole is Some {
            assert(done + whole->0 =~= whole->0);
        }
    }
    while i < count
        invariant
            off <= block@.len(),
            i <= count,
            rdel_best(before + done, key@, max_seq, best),
            whole == rdels_in(block@, count as nat),
            whole == behind_rdels(done, rdels_in(block@.skip(off as int), (count - i) as nat)),
        decreases count - i,
    {
        match rdel_parse_at(block, off) {
            None => {
                return None;
            },
            Some((e, next)) => {
                let hit: bool = e.seq <= max_seq && bytes_le(e.start, key) && bytes_lt(key, e.end)
                    && match best {
                    None => true,
                    Some(s) => e.seq > s,
                };
                let ghost old_best = best;
                if hit {
                    best = Some(e.seq);
                }
                proof {
                    lemma_best_push(before + done, e@, key@, max_seq, old_best, best);
                    assert((before + done).push(e@) =~= before + done.push(e@));
                    let rest = rdels_in(block@.skip(next as int), (count - i - 1) as nat);
                    assert(block@.skip(off as int).skip(next - off) =~= block@.skip(next as int));
                    if rest is Some {
                        assert(done + (seq![e@] + rest->0) =~= done.push(e@) + rest->0);
                    }
                    done = done.push(e@);
                }
                off = next;
            },
        }
        i = i + 1;
    }
    proof {
        assert(done + Seq::<RdelV>::empty() =~= done);
    }
    Some(best)
}

/// Highest sequence number at or below `max_seq` of a range tombstone
/// covering `key` in the rdel section starting at `rdel_first`
/// (`rdel_blocks` blocks), or `None` when no live tombstone covers it.
/// The reader-free form, for callers (like the scan merge) that walk
/// tables without opening a [`TableReader`] per key.
///
/// # Errors
///
/// [`Error::CorruptBlock`] when an rdel block fails verification, or
/// [`Error::Device`] on I/O failure.
pub fn covering_rdel_seq_in<D: BlockDevice, C: CachePort<BLOCK>, const BLOCK: usize>(
    device: &D,
    cache: &mut C,
    table_id: u32,
    scratch: &mut [u8; BLOCK],
    rdel_first: u64,
    rdel_blocks: u32,
    key: &[u8],
    max_seq: u64,
) -> (r: Result<Option<u64>, Error<D::Error>>)
    requires
        D::BLOCK == BLOCK,
        BLOCK >= 6,
        old(cache).port_wf(),
    ensures
        final(cache).port_wf(),
        still_coherent(old(cache).images(), final(cache).images(), device.content()),
        adds_only(
            old(cache).images(),
            final(cache).images(),
            device.content(),
            table_id,
            rdel_first as int,
            rdel_first + rdel_blocks,
        ),
        r matches Err(e) ==> e is CorruptBlock || e is Device,
        coherent(old(cache).images(), device.content(), table_id) ==> match r {
            Ok(best) => section_list(device.content(), rdel_first, rdel_blocks as nat) matches Ok(
                rs,
            ) && rdel_best(rs, key@, max_seq, best),
            Err(Error::CorruptBlock { id }) => section_list(
                device.content(),
                rdel_first,
                rdel_blocks as nat,
            ) == Err::<Seq<RdelV>, u64>(id),
            Err(e) => e is Device,
        },
{
    let ghost c = device.content();
    let ghost co = coherent(old(cache).images(), c, table_id);
    let mut best: Option<u64> = None;
    let mut b: u32 = 0;
    let ghost mut rs: Seq<RdelV> = Seq::empty();
    proof {
        assert(rdel_best(rs, key@, max_seq, best));
    }
    while b < rdel_blocks
        invariant
            D::BLOCK == BLOCK,
            BLOCK >= 6,
            c == device.content(),
            co == coherent(old(cache).images(), c, table_id),
            cache.port_wf(),
            still_coherent(old(cache).images(), cache.images(), c),
            adds_only(
                old(cache).images(),
                cache.images(),
                c,
                table_id,
                rdel_first as int,
                rdel_first + rdel_blocks,
            ),
            b <= rdel_blocks,
            rdel_best(rs, key@, max_seq, best),
            co ==> section_list(c, rdel_first, b as nat) == Ok::<Seq<RdelV>, u64>(rs),
        decreases rdel_blocks - b,
    {
        proof {
            if co {
                assert(coherent(cache.images(), c, table_id));
            }
        }
        let id: u64 = match rdel_first.checked_add(b as u64) {
            None => {
                proof {
                    if co {
                        lemma_section_err(c, rdel_first, (b + 1) as nat, rdel_blocks as nat);
                    }
                }
                return Err(Error::CorruptBlock { id: rdel_first });
            },
            Some(id) => id,
        };
        let ghost mid = cache.images();
        match read_block_cached(device, cache, table_id, id, scratch, true) {
            Ok(()) => {},
            Err(e) => {
                proof {
                    lemma_adds_trans(
                        old(cache).images(),
                        mid,
                        cache.images(),
                        c,
                        table_id,
                        rdel_first as int,
                        rdel_first + rdel_blocks,
                        id as int,
                        id + 1,
                    );
                }
                return Err(e);
            },
        }
        proof {
            lemma_adds_trans(
                old(cache).images(),
                mid,
                cache.images(),
                c,
                table_id,
                rdel_first as int,
                rdel_first + rdel_blocks,
                id as int,
                id + 1,
            );
            assert forall|t: u32| coherent(old(cache).images(), c, t) implies #[trigger] coherent(
                cache.images(),
                c,
                t,
            ) by {
                assert(coherent(mid, c, t));
            }
        }
        let count: usize = match rdel_block_count::<D::Error, BLOCK>(scratch, id) {
            Ok(n) => n,
            Err(e) => {
                proof {
                    if co {
                        lemma_section_err(c, rdel_first, (b + 1) as nat, rdel_blocks as nat);
                    }
                }
                return Err(e);
            },
        };
        match cover_in_block(scratch, count, key, max_seq, best, Ghost(rs)) {
            None => {
                proof {
                    if co {
                        lemma_section_err(c, rdel_first, (b + 1) as nat, rdel_blocks as nat);
                    }
                }
                return Err(Error::CorruptBlock { id });
            },
            Some(n) => {
                best = n;
                proof {
                    let more = rdels_in(scratch@, count as nat)->0;
                    rs = rs + more;
                }
            },
        }
        b = b + 1;
    }
    Ok(best)
}

/// An unreadable block makes the whole section unreadable.
proof fn lemma_section_err(c: Map<u64, Seq<u8>>, first: u64, m: nat, n: nat)
    requires
        m <= n,
        section_list(c, first, m) is Err,
    ensures
        section_list(c, first, n) == section_list(c, first, m),
    decreases n,
{
    if m < n {
        lemma_section_err(c, first, m, (n - 1) as nat);
    }
}

/// Result of a point lookup in one table, carrying the entry's sequence
/// number.
///
/// [`TableReader::lookup`] reports all three; [`TableReader::get`] folds
/// tombstones and misses into `None`.
///
/// The sequence number is what lets [`Db`](crate::db::Db) implement "highest
/// seq wins" across levels: the entry's own seq, not just its table's max.
#[derive(Debug, Clone, Copy, PartialEq, Eq, Structural)]
pub enum Lookup {
    /// Live value.
    Value {
        /// Byte length written to the caller's buffer.
        len: usize,
        /// The entry's sequence number.
        seq: u64,
        /// Absolute expiry tick; 0 = no expiry. The caller suppresses the
        /// value when `expire_at <= now`.
        expire_at: u64,
    },
    /// Deletion marker: shadows the same key in older tables.
    Tombstone {
        /// The tombstone's sequence number.
        seq: u64,
    },
    /// Key not present in this table.
    Missing,
}

/// The lookup found entry `e`, whose value is in `buf`.
pub open spec fn found_is(l: Lookup, e: Rec, buf: Seq<u8>) -> bool {
    match l {
        Lookup::Value { len, seq, expire_at } => {
            &&& !e.tombstone
            &&& len == e.val.len()
            &&& seq == e.seq
            &&& expire_at == e.expire_at
            &&& len <= buf.len()
            &&& buf.take(len as int) == e.val
        },
        Lookup::Tombstone { seq } => e.tombstone && seq == e.seq,
        Lookup::Missing => false,
    }
}

/// The result of a lookup among `recs`.
pub open spec fn looked_up<E>(
    recs: Seq<Rec>,
    key: Seq<u8>,
    max_seq: u64,
    r: Result<Lookup, Error<E>>,
    buf: Seq<u8>,
) -> bool {
    match r {
        Ok(Lookup::Missing) => forall|i: int| !#[trigger] visible_version(recs, key, max_seq, i),
        Ok(l) => exists|i: int| #[trigger] is_hit(recs, key, max_seq, i) && found_is(l, recs[i], buf),
        Err(Error::BufferTooSmall { need }) => exists|i: int| #[trigger]
            is_hit(recs, key, max_seq, i) && !recs[i].tombstone && need == recs[i].val.len() && need
                > buf.len(),
        Err(e) => e is Device,
    }
}

/// The result of a get among `recs`: the visible value's length.
pub open spec fn got<E>(
    recs: Seq<Rec>,
    key: Seq<u8>,
    max_seq: u64,
    r: Result<Option<usize>, Error<E>>,
    buf: Seq<u8>,
) -> bool {
    match r {
        Ok(None) => forall|i: int| #[trigger] is_hit(recs, key, max_seq, i) ==> recs[i].tombstone,
        Ok(Some(len)) => exists|i: int| #[trigger]
            is_hit(recs, key, max_seq, i) && !recs[i].tombstone && len == recs[i].val.len() && len
                <= buf.len() && buf.take(len as int) == recs[i].val,
        Err(Error::BufferTooSmall { need }) => exists|i: int| #[trigger]
            is_hit(recs, key, max_seq, i) && !recs[i].tombstone && need == recs[i].val.len() && need
                > buf.len(),
        Err(e) => e is Device,
    }
}

/// A hit in an intact or damaged table alike is a version stored in one of
/// its verified blocks.
pub open spec fn found_stored(
    c: Map<u64, Seq<u8>>,
    key: Seq<u8>,
    max_seq: u64,
    l: Lookup,
    buf: Seq<u8>,
) -> bool {
    exists|id: u64|
        crc_ok(#[trigger] c[id]) && logical_of(c[id]) is Some && hit_stored(
            logical_of(c[id])->0,
            key,
            max_seq,
            as_hit(l),
            buf,
        )
}

/// The bloom block is intact and says that the table has no version of the
/// key.
pub open spec fn gated(c: Map<u64, Seq<u8>>, f: FootV, key: Seq<u8>, bloom_bytes: int) -> bool {
    &&& crc_ok(c[f.bloom_block])
    &&& bloom_bytes > 0
    &&& !bloom_has(c[f.bloom_block].take(bloom_bytes), key, f.k)
}

/// The index block is intact and parses.
pub open spec fn index_intact(c: Map<u64, Seq<u8>>, f: FootV) -> bool {
    crc_ok(c[f.index_block]) && index_list(payload_of(c[f.index_block])) is Some
}

/// Block `id` is a data block that the index names, or follows one it names
/// with no more blocks between than the index has entries left.
pub open spec fn in_index(l: Seq<(Seq<u8>, u64)>, id: u64) -> bool {
    exists|p: int|
        0 <= p < l.len() && (#[trigger] l[p]).1 <= id < l[p].1 + (l.len() - p)
}

/// Data block `id` is torn, or a search of it found nothing.
pub open spec fn block_missed(c: Map<u64, Seq<u8>>, id: u64, key: Seq<u8>, max_seq: u64) -> bool {
    ||| !crc_ok(c[id])
    ||| logical_of(c[id]) is None
    ||| exists|out: BlockOutcome, stops: Seq<int>| #[trigger]
        missed(logical_of(c[id])->0, key, max_seq, out, stops)
}

/// Why a lookup finds nothing, in an intact or damaged table alike: the
/// bloom filter says so, or the key sorts before the index, or a data block
/// of the table is torn or was searched in vain. Damage to the index is
/// never a reason.
pub open spec fn miss_seen(
    c: Map<u64, Seq<u8>>,
    f: FootV,
    key: Seq<u8>,
    max_seq: u64,
    bloom_bytes: int,
) -> bool {
    let l = index_list(payload_of(c[f.index_block]))->0;
    ||| gated(c, f, key, bloom_bytes)
    ||| index_intact(c, f) && (l.len() == 0 || lex_lt(key, l[0].0))
    ||| index_intact(c, f) && exists|id: u64| #[trigger]
        block_missed(c, id, key, max_seq) && in_index(l, id)
}

/// What a lookup says of an intact or damaged table alike: a version found
/// is a stored one, a miss has a reason, and a damaged index behind the
/// bloom filter is an error.
pub open spec fn told<E>(
    c: Map<u64, Seq<u8>>,
    f: FootV,
    key: Seq<u8>,
    max_seq: u64,
    bloom_bytes: int,
    r: Result<Lookup, Error<E>>,
    buf: Seq<u8>,
) -> bool {
    &&& r matches Ok(l) ==> if l == Lookup::Missing {
        miss_seen(c, f, key, max_seq, bloom_bytes)
    } else {
        found_stored(c, key, max_seq, l, buf)
    }
    &&& gated(c, f, key, bloom_bytes) ==> r == Ok::<Lookup, Error<E>>(Lookup::Missing) || (
    r matches Err(e) && e is Device)
    &&& !gated(c, f, key, bloom_bytes) && !index_intact(c, f) ==> (r matches Err(e) && (e is Device
        || e == (Error::<E>::CorruptBlock { id: f.index_block })))
}

/// The first `len` bytes of `buf` are a stored version's value.
pub open spec fn value_stored(
    c: Map<u64, Seq<u8>>,
    key: Seq<u8>,
    max_seq: u64,
    len: usize,
    buf: Seq<u8>,
) -> bool {
    exists|seq: u64, expire_at: u64| #[trigger]
        found_stored(c, key, max_seq, Lookup::Value { len, seq, expire_at }, buf)
}

/// What a read says of an intact or damaged table alike: a value read is a
/// stored version's, and a damaged index behind the bloom filter is an
/// error.
pub open spec fn got_told<E>(
    c: Map<u64, Seq<u8>>,
    f: FootV,
    key: Seq<u8>,
    max_seq: u64,
    bloom_bytes: int,
    r: Result<Option<usize>, Error<E>>,
    buf: Seq<u8>,
) -> bool {
    &&& r matches Ok(Some(len)) ==> value_stored(c, key, max_seq, len, buf)
    &&& !gated(c, f, key, bloom_bytes) && !index_intact(c, f) ==> (r matches Err(e) && (e is Device
        || e == (Error::<E>::CorruptBlock { id: f.index_block })))
}

/// A found lookup as a data hit.
pub open spec fn as_hit(l: Lookup) -> DataHit {
    match l {
        Lookup::Value { len, seq, expire_at } => DataHit::Value { len, seq, expire_at },
        Lookup::Tombstone { seq } => DataHit::Tombstone(seq),
        Lookup::Missing => DataHit::Tombstone(0),
    }
}

/// Point-lookup reader over one table. Holds a shared device reference;
/// every lookup reuses the caller's scratch block.
pub struct TableReader<'d, D: BlockDevice, const BLOCK: usize, const BLOOM_BYTES: usize> {
    device: &'d D,
    /// Owning table's id: first half of the block-cache key. Table ids
    /// are monotone and never reused, so `(table_id, block_id)` names a
    /// block image immutably.
    table_id: u32,
    foot: Footer,
    /// First block of the range-tombstone section.
    rdel_first: u64,
}

impl<'d, D: BlockDevice, const BLOCK: usize, const BLOOM_BYTES: usize> TableReader<
    'd,
    D,
    BLOCK,
    BLOOM_BYTES,
> {
    /// The device's blocks.
    pub closed spec fn content(&self) -> Map<u64, Seq<u8>> {
        self.device.content()
    }

    /// The owning table's id.
    pub closed spec fn id(&self) -> u32 {
        self.table_id
    }

    /// The table's footer.
    pub closed spec fn footer(&self) -> FootV {
        self.foot@
    }

    /// First block of the range-tombstone section.
    pub closed spec fn section(&self) -> u64 {
        self.rdel_first
    }

    /// Sizes that the reader can work with.
    pub open spec fn shape_ok() -> bool {
        &&& D::BLOCK == BLOCK
        &&& BLOCK >= 49
        &&& BLOOM_BYTES + 4 <= BLOCK
        &&& BLOOM_BYTES * 8 <= usize::MAX
    }

    /// Opens the table ending at `footer_block`: reads and verifies the
    /// footer (magic + CRC). `rdel_first` is the first block of the table's
    /// range-tombstone section. No cache is used: every block is read from
    /// the device, for pre-visibility reads (ingest validation) that must
    /// not populate the cache.
    ///
    /// # Errors
    ///
    /// [`Error::CorruptBlock`] when the footer is missing or fails
    /// verification, or [`Error::Device`] on I/O failure.
    pub fn open(
        device: &'d D,
        scratch: &mut [u8; BLOCK],
        footer_block: u64,
        rdel_first: u64,
    ) -> (r: Result<Self, Error<D::Error>>)
        requires
            Self::shape_ok(),
        ensures
            match r {
                Ok(t) => {
                    &&& foot_of(device.content()[footer_block]) == Some(t.footer())
                    &&& t.footer().k != 0
                    &&& t.content() == device.content()
                    &&& t.id() == 0
                    &&& t.section() == rdel_first
                },
                Err(Error::CorruptBlock { id }) => {
                    &&& id == footer_block
                    &&& foot_of(device.content()[footer_block]) matches Some(f) ==> f.k == 0
                },
                Err(e) => e is Device,
            },
    {
        let mut none: NoCache<BLOCK> = NoCache;
        assert(coherent(none.images(), device.content(), 0));
        Self::open_cached(device, &mut none, 0, scratch, footer_block, rdel_first)
    }

    /// Opens a table reader through a block cache. `table_id` is the table's
    /// manifest id: it tags every cached block.
    ///
    /// # Errors
    ///
    /// [`Error::CorruptBlock`] when the footer is missing or fails
    /// verification, or [`Error::Device`] on I/O failure.
    pub fn open_cached<C: CachePort<BLOCK>>(
        device: &'d D,
        cache: &mut C,
        table_id: u32,
        scratch: &mut [u8; BLOCK],
        footer_block: u64,
        rdel_first: u64,
    ) -> (r: Result<Self, Error<D::Error>>)
        requires
            Self::shape_ok(),
            old(cache).port_wf(),
        ensures
            final(cache).port_wf(),
            still_coherent(old(cache).images(), final(cache).images(), device.content()),
            adds_only(
                old(cache).images(),
                final(cache).images(),
                device.content(),
                table_id,
                footer_block as int,
                footer_block + 1,
            ),
            r matches Ok(t) ==> {
                &&& t.content() == device.content()
                &&& t.id() == table_id
                &&& t.section() == rdel_first
                &&& t.footer().k != 0
            },
            r matches Err(e) ==> e is CorruptBlock || e is Device,
            coherent(old(cache).images(), device.content(), table_id) ==> match r {
                Ok(t) => foot_of(device.content()[footer_block]) == Some(t.footer()),
                Err(Error::CorruptBlock { id }) => {
                    &&& id == footer_block
                    &&& foot_of(device.content()[footer_block]) matches Some(f) ==> f.k == 0
                },
                Err(e) => e is Device,
            },
    {
        match read_block_cached(device, cache, table_id, footer_block, scratch, true) {
            Ok(()) => {},
            Err(e) => {
                return Err(e);
            },
        }
        match parse_footer::<D::Error, BLOCK>(scratch, footer_block) {
            Ok(foot) => {
                if foot.k == 0 {
                    return Err(Error::CorruptBlock { id: footer_block });
                }
                Ok(TableReader { device, table_id, foot, rdel_first })
            },
            Err(e) => Err(e),
        }
    }

    /// Range-tombstone blocks in this table (0 when the table has no
    /// range-tombstone section).
    #[must_use]
    pub fn rdel_blocks(&self) -> (r: u32)
        ensures
            r == self.footer().rdel_blocks,
    {
        self.foot.rdel_blocks
    }

    /// The table's entry count (values plus tombstones), as recorded in
    /// the verified footer. Used by ingest to cross-check a sealed
    /// descriptor against the copied bytes.
    #[must_use]
    pub fn entry_count(&self) -> (r: u64)
        ensures
            r == self.footer().entry_count,
    {
        self.foot.entry_count
    }

    /// The table's lowest sequence number, as recorded in the verified
    /// footer.
    #[must_use]
    pub fn min_seq(&self) -> (r: u64)
        ensures
            r == self.footer().min_seq,
    {
        self.foot.min_seq
    }

    /// Highest sequence number at or below `max_seq` of a range tombstone
    /// covering `key`, or `None` when no live tombstone covers it. Reads
    /// each rdel block once into `scratch`; corruption is
    /// [`Error::CorruptBlock`], never a silent miss.
    ///
    /// # Errors
    ///
    /// [`Error::CorruptBlock`] when an rdel block fails verification, or
    /// [`Error::Device`] on I/O failure.
    pub fn covering_rdel_seq<C: CachePort<BLOCK>>(
        &self,
        cache: &mut C,
        scratch: &mut [u8; BLOCK],
        key: &[u8],
        max_seq: u64,
    ) -> (r: Result<Option<u64>, Error<D::Error>>)
        requires
            Self::shape_ok(),
            old(cache).port_wf(),
        ensures
            final(cache).port_wf(),
            still_coherent(old(cache).images(), final(cache).images(), self.content()),
            adds_only(
                old(cache).images(),
                final(cache).images(),
                self.content(),
                self.id(),
                self.section() as int,
                self.section() + self.footer().rdel_blocks,
            ),
            r matches Err(e) ==> e is CorruptBlock || e is Device,
            coherent(old(cache).images(), self.content(), self.id()) ==> match r {
                Ok(best) => section_list(
                    self.content(),
                    self.section(),
                    self.footer().rdel_blocks as nat,
                ) matches Ok(rs) && rdel_best(rs, key@, max_seq, best),
                Err(Error::CorruptBlock { id }) => section_list(
                    self.content(),
                    self.section(),
                    self.footer().rdel_blocks as nat,
                ) == Err::<Seq<RdelV>, u64>(id),
                Err(e) => e is Device,
            },
    {
        covering_rdel_seq_in(
            self.device,
            cache,
            self.table_id,
            scratch,
            self.rdel_first,
            self.foot.rdel_blocks,
            key,
            max_seq,
        )
    }

    /// Looks `key` up: bloom gate, index binary search, data block
    /// restart-point search, selecting the newest version. Tombstones and
    /// misses both yield `Ok(None)`; use [`lookup`](TableReader::lookup)
    /// when the distinction matters. This is the live view: it is
    /// [`get_at`](TableReader::get_at) with `max_seq = u64::MAX`.
    ///
    /// # Errors
    ///
    /// As [`lookup_at`](TableReader::lookup_at).
    pub fn get<C: CachePort<BLOCK>>(
        &self,
        cache: &mut C,
        scratch: &mut [u8; BLOCK],
        decomp: &mut [u8; BLOCK],
        key: &[u8],
        val_buf: &mut [u8],
    ) -> (r: Result<Option<usize>, Error<D::Error>>)
        requires
            Self::shape_ok(),
            old(cache).port_wf(),
        ensures
            final(cache).port_wf(),
            final(val_buf)@.len() == old(val_buf)@.len(),
            still_coherent(old(cache).images(), final(cache).images(), self.content()),
            coherent(old(cache).images(), self.content(), self.id()) ==> got_told(
                self.content(),
                self.footer(),
                key@,
                u64::MAX,
                BLOOM_BYTES as int,
                r,
                final(val_buf)@,
            ),
            coherent(old(cache).images(), self.content(), self.id()) && stored_wf(
                self.content(),
                self.footer(),
                BLOCK as int,
                BLOOM_BYTES as int,
            ) ==> got(
                stored_recs(self.content(), self.footer().index_block),
                key@,
                u64::MAX,
                r,
                final(val_buf)@,
            ),
    {
        self.get_at(cache, scratch, decomp, key, val_buf, u64::MAX)
    }

    /// Snapshot read: like [`get`](TableReader::get), but observes only
    /// versions with `seq <= max_seq`.
    ///
    /// # Errors
    ///
    /// As [`lookup_at`](TableReader::lookup_at).
    pub fn get_at<C: CachePort<BLOCK>>(
        &self,
        cache: &mut C,
        scratch: &mut [u8; BLOCK],
        decomp: &mut [u8; BLOCK],
        key: &[u8],
        val_buf: &mut [u8],
        max_seq: u64,
    ) -> (r: Result<Option<usize>, Error<D::Error>>)
        requires
            Self::shape_ok(),
            old(cache).port_wf(),
        ensures
            final(cache).port_wf(),
            final(val_buf)@.len() == old(val_buf)@.len(),
            still_coherent(old(cache).images(), final(cache).images(), self.content()),
            coherent(old(cache).images(), self.content(), self.id()) ==> got_told(
                self.content(),
                self.footer(),
                key@,
                max_seq,
                BLOOM_BYTES as int,
                r,
                final(val_buf)@,
            ),
            coherent(old(cache).images(), self.content(), self.id()) && stored_wf(
                self.content(),
                self.footer(),
                BLOCK as int,
                BLOOM_BYTES as int,
            ) ==> got(
                stored_recs(self.content(), self.footer().index_block),
                key@,
                max_seq,
                r,
                final(val_buf)@,
            ),
    {
        let ghost recs = stored_recs(self.content(), self.footer().index_block);
        match self.lookup_at(cache, scratch, decomp, key, val_buf, max_seq) {
            Ok(Lookup::Value { len, seq, expire_at }) => {
                proof {
                    if coherent(old(cache).images(), self.content(), self.id()) {
                        let l = Lookup::Value { len, seq, expire_at };
                        assert(found_stored(self.content(), key@, max_seq, l, val_buf@));
                        assert(value_stored(self.content(), key@, max_seq, len, val_buf@));
                    }
                }
                Ok(Some(len))
            },
            Ok(Lookup::Tombstone { seq }) => {
                proof {
                    if exists|i: int| #[trigger] is_hit(recs, key@, max_seq, i)
                        && recs[i].tombstone {
                        let i = choose|i: int| #[trigger]
                            is_hit(recs, key@, max_seq, i) && recs[i].tombstone;
                        assert forall|j: int| #[trigger]
                            is_hit(recs, key@, max_seq, j) implies recs[j].tombstone by {
                            lemma_one_hit(recs, key@, max_seq, i, j);
                        }
                    }
                }
                Ok(None)
            },
            Ok(Lookup::Missing) => Ok(None),
            Err(e) => Err(e),
        }
    }

    /// Looks `key` up, distinguishing a live value from a deletion marker:
    /// bloom gate, index binary search, data block restart-point search,
    /// selecting the newest version. This is the live view: it is
    /// [`lookup_at`](TableReader::lookup_at) with `max_seq = u64::MAX`.
    ///
    /// # Errors
    ///
    /// As [`lookup_at`](TableReader::lookup_at).
    pub fn lookup<C: CachePort<BLOCK>>(
        &self,
        cache: &mut C,
        scratch: &mut [u8; BLOCK],
        decomp: &mut [u8; BLOCK],
        key: &[u8],
        val_buf: &mut [u8],
    ) -> (r: Result<Lookup, Error<D::Error>>)
        requires
            Self::shape_ok(),
            old(cache).port_wf(),
        ensures
            final(cache).port_wf(),
            final(val_buf)@.len() == old(val_buf)@.len(),
            still_coherent(old(cache).images(), final(cache).images(), self.content()),
            coherent(old(cache).images(), self.content(), self.id()) ==> told(
                self.content(),
                self.footer(),
                key@,
                u64::MAX,
                BLOOM_BYTES as int,
                r,
                final(val_buf)@,
            ),
            coherent(old(cache).images(), self.content(), self.id()) && stored_wf(
                self.content(),
                self.footer(),
                BLOCK as int,
                BLOOM_BYTES as int,
            ) ==> looked_up(
                stored_recs(self.content(), self.footer().index_block),
                key@,
                u64::MAX,
                r,
                final(val_buf)@,
            ),
    {
        self.lookup_at(cache, scratch, decomp, key, val_buf, u64::MAX)
    }

    /// Snapshot read: like [`lookup`](TableReader::lookup), but observes
    /// only versions with `seq <= max_seq` (`u64::MAX` is the live view).
    /// A key's version run can straddle data blocks, and a `max_seq` can
    /// hide every version in the run's first block, so the search walks
    /// forward across data blocks while a block ends inside the run.
    /// A corrupt bloom block only disables the filter, never the lookup.
    ///
    /// `decomp` is the caller's decompression buffer: data blocks flagged
    /// compressed are inflated into it before parsing; raw blocks are
    /// parsed in place from `scratch` with no copy.
    ///
    /// # Errors
    ///
    /// [`Error::BufferTooSmall`] when `val_buf` is smaller than the value,
    /// [`Error::CorruptBlock`] when the index block fails verification, or
    /// [`Error::Device`] on I/O failure.
    pub fn lookup_at<C: CachePort<BLOCK>>(
        &self,
        cache: &mut C,
        scratch: &mut [u8; BLOCK],
        decomp: &mut [u8; BLOCK],
        key: &[u8],
        val_buf: &mut [u8],
        max_seq: u64,
    ) -> (r: Result<Lookup, Error<D::Error>>)
        requires
            Self::shape_ok(),
            old(cache).port_wf(),
        ensures
            final(cache).port_wf(),
            final(val_buf)@.len() == old(val_buf)@.len(),
            still_coherent(old(cache).images(), final(cache).images(), self.content()),
            r matches Err(e) ==> e is BufferTooSmall || e is CorruptBlock || e is Device,
            coherent(old(cache).images(), self.content(), self.id()) && stored_wf(
                self.content(),
                self.footer(),
                BLOCK as int,
                BLOOM_BYTES as int,
            ) ==> adds_spanned(
                old(cache).images(),
                final(cache).images(),
                self.content(),
                self.id(),
                self.footer(),
            ),
            coherent(old(cache).images(), self.content(), self.id()) ==> told(
                self.content(),
                self.footer(),
                key@,
                max_seq,
                BLOOM_BYTES as int,
                r,
                final(val_buf)@,
            ),
            coherent(old(cache).images(), self.content(), self.id()) && stored_wf(
                self.content(),
                self.footer(),
                BLOCK as int,
                BLOOM_BYTES as int,
            ) ==> looked_up(
                stored_recs(self.content(), self.footer().index_block),
                key@,
                max_seq,
                r,
                final(val_buf)@,
            ),
    {
        let device: &D = self.device;
        let ghost c = self.content();
        let ghost f = self.footer();
        let ghost images0 = cache.images();
        let ghost co = coherent(images0, c, self.id());
        let ghost wf = co && stored_wf(c, f, BLOCK as int, BLOOM_BYTES as int);
        let ghost recs = stored_recs(c, f.index_block);
        // Bloom gate (advisory: corruption just disables the optimization,
        // never the lookup).
        let bloomed = read_block_cached(
            device,
            cache,
            self.table_id,
            self.foot.bloom_block,
            scratch,
            true,
        );
        let ghost images1 = cache.images();
        proof {
            lemma_adds_spanned(images0, images0, images1, c, self.id(), f, f.bloom_block);
        }
        match bloomed {
            Ok(()) => {},
            Err(e) => {
                return Err(e);
            },
        }
        let gate: bool = match check_block_crc::<D::Error, BLOCK>(scratch, self.foot.bloom_block) {
            Ok(()) => true,
            Err(_) => false,
        };
        proof {
            assert(scratch@.subrange(0, BLOOM_BYTES as int) =~= scratch@.take(BLOOM_BYTES as int));
        }
        if gate && !bloom_maybe_contains(&scratch[0..BLOOM_BYTES], key, self.foot.k) {
            proof {
                if wf {
                    assert forall|i: int| !#[trigger] visible_version(recs, key@, max_seq, i) by {
                        if 0 <= i < recs.len() && recs[i].key == key@ {
                            assert(bloom_has(c[f.bloom_block].take(BLOOM_BYTES as int), recs[i].key, f.k));
                        }
                    }
                }
            }
            return Ok(Lookup::Missing);
        }
        // Index: structural; corruption is an error, never a silent miss.
        let indexed = read_block_cached(
            device,
            cache,
            self.table_id,
            self.foot.index_block,
            scratch,
            true,
        );
        proof {
            lemma_adds_spanned(images0, images1, cache.images(), c, self.id(), f, f.index_block);
        }
        match indexed {
            Ok(()) => {},
            Err(e) => {
                proof {
                    lemma_coherent_trans(images0, images1, cache.images(), c);
                }
                return Err(e);
            },
        }
        proof {
            lemma_coherent_trans(images0, images1, cache.images(), c);
            if co {
                assert(coherent(images1, c, self.id()));
            }
        }
        match check_block_crc::<D::Error, BLOCK>(scratch, self.foot.index_block) {
            Ok(()) => {},
            Err(e) => {
                return Err(e);
            },
        }
        let payload_end: usize = BLOCK - CRC_LEN;
        let ghost l = stored_index(c, f.index_block);
        proof {
            assert(scratch@.subrange(0, payload_end as int) =~= payload_of(scratch@));
            if wf {
                lemma_stored_index_sorted(c, f, BLOCK as int, BLOOM_BYTES as int);
            }
        }
        let (mut block_id, mut remaining): (u64, usize) = match index_lookup::<D::Error>(
            &scratch[0..payload_end],
            key,
            self.foot.index_block,
        ) {
            Err(e) => {
                return Err(e);
            },
            Ok(None) => {
                proof {
                    if wf {
                        lemma_before_all(c, f, BLOCK as int, BLOOM_BYTES as int, key@, max_seq);
                    }
                }
                return Ok(Lookup::Missing);
            },
            Ok(Some(b)) => b,
        };
        let ghost mut p: int = 0;
        let ghost il = index_list(payload_of(c[f.index_block]))->0;
        let ghost p0 = il.len() - remaining;
        let ghost mut k: int = 0;
        proof {
            if wf {
                p = l.len() - remaining;
                lemma_before_start(c, f, BLOCK as int, BLOOM_BYTES as int, key@, max_seq, p);
            }
        }
        // Data blocks are contiguous, so the run walk below only moves
        // forward, and `remaining` keeps it inside the table's data blocks.
        loop
            invariant
                Self::shape_ok(),
                device == self.device,
                c == self.content(),
                f == self.footer(),
                l == stored_index(c, f.index_block),
                recs == stored_recs(c, f.index_block),
                co == coherent(images0, c, self.id()),
                wf == (co && stored_wf(c, f, BLOCK as int, BLOOM_BYTES as int)),
                images0 == old(cache).images(),
                cache.port_wf(),
                still_coherent(images0, cache.images(), c),
                wf ==> adds_spanned(images0, cache.images(), c, self.id(), f),
                val_buf@.len() == old(val_buf)@.len(),
                remaining >= 1,
                il == index_list(payload_of(c[f.index_block]))->0,
                co ==> {
                    &&& index_intact(c, f)
                    &&& !gated(c, f, key@, BLOOM_BYTES as int)
                    &&& 0 <= p0 < il.len()
                    &&& 0 <= k
                    &&& remaining == il.len() - p0 - k
                    &&& block_id == il[p0].1 + k
                },
                wf ==> {
                    &&& 0 <= p < l.len()
                    &&& block_id == l[p].1
                    &&& remaining == l.len() - p
                    &&& none_before(stored_groups(c, f.index_block), key@, max_seq, p)
                },
            decreases remaining,
        {
            let ghost mid = cache.images();
            proof {
                if co {
                    assert(coherent(mid, c, self.id()));
                    assert(in_index(il, block_id));
                }
                if wf {
                    assert(stored_block_ok(c, l, p, BLOCK as int));
                }
            }
            // Data: a torn block is treated as absent.
            let fetched = read_block_cached(
                device,
                cache,
                self.table_id,
                block_id,
                scratch,
                true,
            );
            proof {
                lemma_coherent_trans(images0, mid, cache.images(), c);
                if wf {
                    assert(stored_index(c, f.index_block)[p].1 == block_id);
                    lemma_adds_spanned(images0, mid, cache.images(), c, self.id(), f, block_id);
                }
            }
            match fetched {
                Ok(()) => {},
                Err(e) => {
                    return Err(e);
                },
            }
            match check_block_crc::<D::Error, BLOCK>(scratch, block_id) {
                Ok(()) => {},
                Err(_) => {
                    assert(co ==> block_missed(c, block_id, key@, max_seq));
                    return Ok(Lookup::Missing);
                },
            }
            // A flagged block inflates into `decomp`; a raw block parses
            // in place from `scratch`. A flag/decoding failure here is a
            // format violation, not a torn write, but like a torn write
            // it reads as absent, never as a wrong value.
            let body_end: usize = BLOCK - CRC_LEN;
            let inflated: bool = match inflate_data_block::<D::Error, BLOCK>(
                scratch,
                decomp,
                block_id,
            ) {
                Err(_) => {
                    assert(co ==> block_missed(c, block_id, key@, max_seq));
                    return Ok(Lookup::Missing);
                },
                Ok(b) => b,
            };
            proof {
                assert(scratch@.subrange(0, body_end as int) =~= payload_of(scratch@));
                assert(decomp@.subrange(0, body_end as int) =~= decomp@.take(body_end as int));
            }
            let ghost body = logical_of(scratch@)->0;
            let found: Result<BlockOutcome, Error<D::Error>> = if inflated {
                data_lookup::<D::Error>(&decomp[0..body_end], key, val_buf, block_id, max_seq)
            } else {
                data_lookup::<D::Error>(&scratch[0..body_end], key, val_buf, block_id, max_seq)
            };
            proof {
                if wf {
                    assert(stored_groups(c, f.index_block)[p] == stored_group(c, l[p].1));
                    lemma_outcome(
                        c,
                        f,
                        BLOCK as int,
                        BLOOM_BYTES as int,
                        key@,
                        max_seq,
                        p,
                        found,
                        val_buf@,
                    );
                }
            }
            match found {
                Err(e) => {
                    return Err(e);
                },
                Ok(BlockOutcome::Hit(DataHit::Value { len, seq, expire_at })) => {
                    let r = Lookup::Value { len, seq, expire_at };
                    proof {
                        if co {
                            assert(crc_ok(c[block_id]));
                            assert(found_stored(c, key@, max_seq, r, val_buf@));
                        }
                    }
                    return Ok(r);
                },
                Ok(BlockOutcome::Hit(DataHit::Tombstone(seq))) => {
                    let r = Lookup::Tombstone { seq };
                    proof {
                        if co {
                            assert(crc_ok(c[block_id]));
                            assert(found_stored(c, key@, max_seq, r, val_buf@));
                        }
                    }
                    return Ok(r);
                },
                // A larger key was seen: later blocks only hold larger keys.
                Ok(BlockOutcome::Absent) => {
                    assert(co ==> block_missed(c, block_id, key@, max_seq));
                    return Ok(Lookup::Missing);
                },
                // The block ended inside (or before) the key's run: the next
                // data block may continue it.
                Ok(BlockOutcome::Truncated) => {
                    assert(co ==> block_missed(c, block_id, key@, max_seq));
                    remaining = remaining - 1;
                    if remaining == 0 {
                        proof {
                            if wf {
                                lemma_none_at_all(stored_groups(c, f.index_block), key@, max_seq);
                            }
                        }
                        return Ok(Lookup::Missing);
                    }
                    proof {
                        k = k + 1;
                        if wf {
                            assert(stored_block_ok(c, l, p + 1, BLOCK as int));
                            p = p + 1;
                        }
                    }
                    block_id = match block_id.checked_add(1) {
                        None => {
                            return Err(Error::CorruptBlock { id: block_id });
                        },
                        Some(id) => id,
                    };
                },
            }
        }
    }
}

/// No entry of the groups before `p` is a visible version of `key`.
pub open spec fn none_before(
    groups: Seq<Seq<Rec>>,
    key: Seq<u8>,
    max_seq: u64,
    p: int,
) -> bool {
    forall|g: int|
        0 <= g < group_start(groups, p) ==> !#[trigger] visible_version(
            super::table::flat_recs(groups),
            key,
            max_seq,
            g,
        )
}

proof fn lemma_coherent_trans(
    a: Map<(u32, u64), Seq<u8>>,
    b: Map<(u32, u64), Seq<u8>>,
    d: Map<(u32, u64), Seq<u8>>,
    c: Map<u64, Seq<u8>>,
)
    requires
        still_coherent(a, b, c),
        still_coherent(b, d, c),
    ensures
        still_coherent(a, d, c),
{
    assert forall|t: u32| coherent(a, c, t) implies #[trigger] coherent(d, c, t) by {
        assert(coherent(b, c, t));
    }
}

/// There is one hit at most.
pub proof fn lemma_one_hit(recs: Seq<Rec>, key: Seq<u8>, max_seq: u64, i: int, j: int)
    requires
        is_hit(recs, key, max_seq, i),
        is_hit(recs, key, max_seq, j),
    ensures
        i == j,
{
    if i < j {
        assert(!visible_version(recs, key, max_seq, i));
    } else if j < i {
        assert(!visible_version(recs, key, max_seq, j));
    }
}

/// A key below every block's first key is not in the table.
proof fn lemma_before_all(
    c: Map<u64, Seq<u8>>,
    f: FootV,
    block: int,
    bloom_bytes: int,
    key: Seq<u8>,
    max_seq: u64,
)
    requires
        stored_wf(c, f, block, bloom_bytes),
        forall|i: int|
            0 <= i < stored_index(c, f.index_block).len() ==> lex_lt(
                key,
                #[trigger] stored_index(c, f.index_block)[i].0,
            ),
    ensures
        forall|i: int|
            !#[trigger] visible_version(stored_recs(c, f.index_block), key, max_seq, i),
{
    let l = stored_index(c, f.index_block);
    let gs = stored_groups(c, f.index_block);
    let recs = stored_recs(c, f.index_block);
    assert forall|i: int| !#[trigger] visible_version(recs, key, max_seq, i) by {
        if 0 <= i < recs.len() {
            let (b, k) = lemma_flat_group(gs, i);
            assert(stored_block_ok(c, l, 0, block));
            assert(gs[0] == stored_group(c, l[0].1));
            lemma_flat_at(gs, 0, 0);
            assert(gs.take(0) =~= Seq::<Seq<Rec>>::empty());
            assert(lex_le(recs[0].key, recs[i].key));
            assert(lex_lt(key, l[0].0));
            lemma_lex_lt_le(key, recs[0].key, recs[i].key);
            lemma_lex_irreflexive(key);
        }
    }
}

/// Everything before the block a search starts at is below the key.
proof fn lemma_before_start(
    c: Map<u64, Seq<u8>>,
    f: FootV,
    block: int,
    bloom_bytes: int,
    key: Seq<u8>,
    max_seq: u64,
    p: int,
)
    requires
        stored_wf(c, f, block, bloom_bytes),
        is_start(stored_index(c, f.index_block), key, p),
    ensures
        none_before(stored_groups(c, f.index_block), key, max_seq, p),
{
    let l = stored_index(c, f.index_block);
    let gs = stored_groups(c, f.index_block);
    let recs = stored_recs(c, f.index_block);
    let s = group_start(gs, p);
    if p == 0 {
        assert(gs.take(0) =~= Seq::<Seq<Rec>>::empty());
    } else {
        assert(stored_block_ok(c, l, p, block));
        assert(gs[p] == stored_group(c, l[p].1));
        lemma_flat_at(gs, p, 0);
        assert forall|g: int| 0 <= g < s implies !#[trigger] visible_version(
            recs,
            key,
            max_seq,
            g,
        ) by {
            assert(lex_le(recs[g].key, recs[s].key));
            lemma_lex_le_lt(recs[g].key, recs[s].key, key);
            lemma_lex_irreflexive(key);
        }
    }
}

proof fn lemma_none_at_all(gs: Seq<Seq<Rec>>, key: Seq<u8>, max_seq: u64)
    requires
        none_before(gs, key, max_seq, gs.len() as int),
    ensures
        forall|i: int|
            !#[trigger] visible_version(super::table::flat_recs(gs), key, max_seq, i),
{
    assert(gs.take(gs.len() as int) =~= gs);
}

/// What a block's outcome means for the table.
proof fn lemma_outcome<E>(
    c: Map<u64, Seq<u8>>,
    f: FootV,
    block: int,
    bloom_bytes: int,
    key: Seq<u8>,
    max_seq: u64,
    p: int,
    r: Result<BlockOutcome, Error<E>>,
    buf: Seq<u8>,
)
    requires
        stored_wf(c, f, block, bloom_bytes),
        0 <= p < stored_groups(c, f.index_block).len(),
        none_before(stored_groups(c, f.index_block), key, max_seq, p),
        outcome_on(stored_groups(c, f.index_block)[p], key, max_seq, r, buf),
    ensures
        ({
            let gs = stored_groups(c, f.index_block);
            let recs = stored_recs(c, f.index_block);
            match r {
                Ok(BlockOutcome::Hit(h)) => exists|g: int| #[trigger]
                    is_hit(recs, key, max_seq, g) && hit_is(h, recs[g], buf),
                Ok(BlockOutcome::Absent) => forall|g: int|
                    !#[trigger] visible_version(recs, key, max_seq, g),
                Ok(BlockOutcome::Truncated) => none_before(gs, key, max_seq, p + 1),
                Err(Error::BufferTooSmall { need }) => exists|g: int| #[trigger]
                    is_hit(recs, key, max_seq, g) && !recs[g].tombstone && need
                        == recs[g].val.len() && need > buf.len(),
                Err(_) => false,
            }
        }),
{
    let l = stored_index(c, f.index_block);
    let gs = stored_groups(c, f.index_block);
    let recs = stored_recs(c, f.index_block);
    let es = gs[p];
    let s = group_start(gs, p);
    assert(stored_block_ok(c, l, p, block));
    assert(es == stored_group(c, l[p].1));
    lemma_flat_at(gs, p, 0);
    assert forall|i: int| 0 <= i < es.len() implies #[trigger] visible_version(
        recs,
        key,
        max_seq,
        s + i,
    ) == visible_version(es, key, max_seq, i) by {
        lemma_flat_at(gs, p, i);
    }
    match r {
        Ok(BlockOutcome::Hit(h)) => {
            let i = choose|i: int| #[trigger] is_hit(es, key, max_seq, i) && hit_is(h, es[i], buf);
            lemma_hit_up(gs, p, key, max_seq, i);
            lemma_flat_at(gs, p, i);
            assert(is_hit(recs, key, max_seq, s + i));
        },
        Err(Error::BufferTooSmall { need }) => {
            let i = choose|i: int| #[trigger]
                is_hit(es, key, max_seq, i) && !es[i].tombstone && need == es[i].val.len() && need
                    > buf.len();
            lemma_hit_up(gs, p, key, max_seq, i);
            lemma_flat_at(gs, p, i);
            assert(is_hit(recs, key, max_seq, s + i));
        },
        Ok(BlockOutcome::Truncated) => {
            assert forall|g: int| 0 <= g < group_start(gs, p + 1) implies !#[trigger]
                visible_version(recs, key, max_seq, g) by {
                if g >= s {
                    assert(visible_version(recs, key, max_seq, s + (g - s)) == visible_version(
                        es,
                        key,
                        max_seq,
                        g - s,
                    ));
                }
            }
        },
        Ok(BlockOutcome::Absent) => {
            let x = choose|i: int| 0 <= i < es.len() && lex_lt(key, #[trigger] es[i].key);
            lemma_flat_at(gs, p, x);
            assert forall|g: int| !#[trigger] visible_version(recs, key, max_seq, g) by {
                if 0 <= g < recs.len() && g >= s {
                    if g < s + es.len() {
                        assert(visible_version(recs, key, max_seq, s + (g - s))
                            == visible_version(es, key, max_seq, g - s));
                    } else {
                        assert(lex_le(recs[s + x].key, recs[g].key));
                        lemma_lex_lt_le(key, recs[s + x].key, recs[g].key);
                        lemma_lex_irreflexive(key);
                    }
                }
            }
        },
        Err(_) => {},
    }
}

/// The hit of a group is the hit of the table when no earlier group has one.
proof fn lemma_hit_up(gs: Seq<Seq<Rec>>, p: int, key: Seq<u8>, max_seq: u64, i: int)
    requires
        0 <= p < gs.len(),
        none_before(gs, key, max_seq, p),
        is_hit(gs[p], key, max_seq, i),
    ensures
        is_hit(super::table::flat_recs(gs), key, max_seq, group_start(gs, p) + i),
{
    let recs = super::table::flat_recs(gs);
    let s = group_start(gs, p);
    let es = gs[p];
    lemma_flat_at(gs, p, i);
    assert(visible_version(recs, key, max_seq, s + i));
    assert forall|g: int| 0 <= g < s + i implies !#[trigger] visible_version(
        recs,
        key,
        max_seq,
        g,
    ) by {
        if g >= s {
            lemma_flat_at(gs, p, g - s);
            assert(!visible_version(es, key, max_seq, g - s));
        }
    }
}

} // verus!

//! Reading the blocks of a table: verification, inflation, and the parsers
//! of entries, index entries and range tombstones.

use vstd::prelude::*;

use super::format::{
    crc_ok, ent_parse, entries_end, foot_of, idx_parse, is_raw, logical_of, payload_of,
    rdel_count, rdel_parse, FootV, RdelV, ENTRY_HEADER,
};
pub use super::format::CRC_LEN;
use crate::bytes::{lemma_pow256, load_le};
use crate::compress::decompress;
use crate::crc::crc32;
use crate::error::Error;
use crate::memtable::Rec;
use crate::wal::Op;

verus! {

/// Checks a block's trailing CRC32.
///
/// # Errors
///
/// [`Error::CorruptBlock`] when it does not match.
pub fn check_block_crc<E, const BLOCK: usize>(block: &[u8; BLOCK], id: u64) -> (r: Result<
    (),
    Error<E>,
>)
    requires
        BLOCK >= CRC_LEN,
    ensures
        r == (if crc_ok(block@) {
            Ok::<(), Error<E>>(())
        } else {
            Err(Error::CorruptBlock { id })
        }),
{
    proof {
        lemma_pow256();
        assert(block@.subrange(0, BLOCK - CRC_LEN) =~= block@.take(BLOCK - CRC_LEN));
    }
    let stored: u64 = load_le(block, BLOCK - CRC_LEN, 4);
    if crc32(&block[0..BLOCK - CRC_LEN]) as u64 != stored {
        return Err(Error::CorruptBlock { id });
    }
    Ok(())
}

/// Inflates a CRC-verified physical data block into its logical form.
///
/// Inspects the compression flag (bit 15 of the trailer count u16). When
/// clear, returns `Ok(false)` and the block is already logical: the caller
/// keeps using the physical buffer. When set, decompresses the flagged
/// payload into `decomp[..BLOCK-4]` and returns `Ok(true)`.
///
/// # Errors
///
/// [`Error::CorruptBlock`] when the length is impossible or the decoder
/// rejects the payload.
pub fn inflate_data_block<E, const BLOCK: usize>(
    raw: &[u8; BLOCK],
    decomp: &mut [u8; BLOCK],
    block_id: u64,
) -> (r: Result<bool, Error<E>>)
    requires
        BLOCK >= 6,
    ensures
        match logical_of(raw@) {
            None => r == Err::<bool, Error<E>>(Error::CorruptBlock { id: block_id }),
            Some(body) => if is_raw(raw@) {
                &&& r == Ok::<bool, Error<E>>(false)
                &&& body == payload_of(raw@)
                &&& final(decomp)@ == old(decomp)@
            } else {
                &&& r == Ok::<bool, Error<E>>(true)
                &&& final(decomp)@.take(BLOCK - CRC_LEN) == body
            },
        },
{
    let n: usize = BLOCK - CRC_LEN;
    let ghost p = payload_of(raw@);
    proof {
        lemma_pow256();
        assert(p.subrange(n - 2, n as int) =~= raw@.subrange(n - 2, n as int));
    }
    let trailer: u64 = load_le(raw, n - 2, 2);
    if trailer < 0x8000 {
        return Ok(false);
    }
    let clen: usize = (trailer - 0x8000) as usize;
    if clen >= n {
        return Err(Error::CorruptBlock { id: block_id });
    }
    let (body, tail): (&mut [u8], &mut [u8]) = decomp.split_at_mut(n);
    assert(raw@.subrange(0, clen as int) =~= p.take(clen as int));
    match decompress(&raw[0..clen], body) {
        Ok(_) => {
            assert(decomp@.take(n as int) == logical_of(raw@)->0);
            Ok(true)
        },
        Err(_) => Err(Error::CorruptBlock { id: block_id }),
    }
}

/// Byte offset where data entries end in a CRC-verified data block: the
/// start of the restart trailer (`[restarts][count u16][crc u32]`).
///
/// # Errors
///
/// [`Error::CorruptBlock`] when the trailer does not fit the block.
pub fn data_entries_end<E, const BLOCK: usize>(block: &[u8; BLOCK], block_id: u64) -> (r: Result<
    usize,
    Error<E>,
>)
    requires
        BLOCK >= 6,
    ensures
        match entries_end(payload_of(block@)) {
            None => r == Err::<usize, Error<E>>(Error::CorruptBlock { id: block_id }),
            Some(end) => r matches Ok(v) && v == end && 0 <= end <= BLOCK - 6,
        },
{
    let n: usize = BLOCK - CRC_LEN;
    proof {
        lemma_pow256();
        assert(payload_of(block@).subrange(n - 2, n as int) =~= block@.subrange(n - 2, n as int));
    }
    let rcount: u64 = load_le(block, n - 2, 2);
    let tail: usize = 2 + 2 * (rcount as usize);
    if tail > n {
        return Err(Error::CorruptBlock { id: block_id });
    }
    Ok(n - tail)
}

/// One parsed data-block entry, borrowing the block.
pub struct ParsedEntry<'a> {
    /// Key bytes.
    pub key: &'a [u8],
    /// Value bytes, empty for a tombstone.
    pub val: &'a [u8],
    /// Sequence number.
    pub seq: u64,
    /// True for a deletion marker.
    pub tombstone: bool,
    /// Absolute expiry tick; 0 = no expiry.
    pub expire_at: u64,
    /// Offset of the next entry.
    pub next: usize,
}

impl<'a> ParsedEntry<'a> {
    /// The entry as a record.
    pub open spec fn rec(&self) -> Rec {
        Rec {
            key: self.key@,
            val: self.val@,
            seq: self.seq,
            tombstone: self.tombstone,
            range_del: false,
            expire_at: self.expire_at,
        }
    }
}

/// Parses the entry at `off`.
///
/// A zero `key_len` is rejected: the writer never emits empty keys, so in a
/// CRC-verified block it marks zero padding, which the lookup scans treat
/// as end-of-entries rather than corruption.
pub fn data_entry_parse(payload: &[u8], off: usize) -> (r: Option<ParsedEntry<'_>>)
    requires
        off <= payload@.len(),
    ensures
        match ent_parse(payload@.skip(off as int)) {
            None => r is None,
            Some((e, n)) => r matches Some(p) && p.rec() == e && p.next == off + n && p.next
                <= payload@.len() && off < p.next,
        },
{
    let size: usize = payload.len();
    let ghost s = payload@.skip(off as int);
    proof {
        lemma_pow256();
    }
    if size - off < ENTRY_HEADER {
        return None;
    }
    proof {
        assert(s.subrange(0, 2) =~= payload@.subrange(off as int, off + 2));
        assert(s.subrange(2, 4) =~= payload@.subrange(off + 2, off + 4));
        assert(s.subrange(4, 12) =~= payload@.subrange(off + 4, off + 12));
        assert(s[12] == payload@[off + 12]);
    }
    let kl: usize = load_le(payload, off, 2) as usize;
    let vl: usize = load_le(payload, off + 2, 2) as usize;
    let seq: u64 = load_le(payload, off + 4, 8);
    let op: Op = match Op::from_u8(payload[off + 12]) {
        None => {
            return None;
        },
        Some(op) => op,
    };
    let left: usize = size - off - ENTRY_HEADER;
    if kl == 0 || kl > left || vl > left - kl {
        return None;
    }
    let ko: usize = off + ENTRY_HEADER;
    let vo: usize = ko + kl;
    let end: usize = vo + vl;
    let ttl: bool = op == Op::PutTtl;
    if ttl && size - end < 8 {
        return None;
    }
    let ghost e = 13 + kl + vl;
    proof {
        assert(s.subrange(13, 13 + kl) =~= payload@.subrange(ko as int, vo as int));
        assert(s.subrange(13 + kl, e) =~= payload@.subrange(vo as int, end as int));
    }
    let expire_at: u64 = if ttl {
        assert(s.subrange(e, e + 8) =~= payload@.subrange(end as int, end + 8));
        load_le(payload, end, 8)
    } else {
        0
    };
    let next: usize = if ttl {
        end + 8
    } else {
        end
    };
    let tombstone: bool = op == Op::Delete;
    let val: &[u8] = if tombstone {
        assert(payload@.subrange(end as int, end as int) =~= Seq::<u8>::empty());
        &payload[end..end]
    } else {
        &payload[vo..end]
    };
    Some(ParsedEntry { key: &payload[ko..vo], val, seq, tombstone, expire_at, next })
}

/// Parses the data entry at `off` in a CRC-verified data block. `end` is
/// the entries end from [`data_entries_end`]; tombstones report an empty
/// value.
///
/// # Errors
///
/// A parse failure is [`Error::CorruptBlock`]: unlike point lookups (which
/// may skip a torn block), compaction must never silently drop entries.
pub fn parse_data_entry<E, const BLOCK: usize>(
    block: &[u8; BLOCK],
    off: usize,
    end: usize,
    block_id: u64,
) -> (r: Result<ParsedEntry<'_>, Error<E>>)
    requires
        end <= BLOCK,
    ensures
        match (if off < end {
            ent_parse(block@.take(end as int).skip(off as int))
        } else {
            None
        }) {
            None => r matches Err(e) && e == (Error::<E>::CorruptBlock { id: block_id }),
            Some((e, n)) => r matches Ok(p) && p.rec() == e && p.next == off + n && p.next <= end
                && off < p.next,
        },
{
    if off >= end {
        return Err(Error::CorruptBlock { id: block_id });
    }
    assert(block@.subrange(0, end as int) =~= block@.take(end as int));
    match data_entry_parse(&block[0..end], off) {
        None => Err(Error::CorruptBlock { id: block_id }),
        Some(p) => Ok(p),
    }
}

/// One range tombstone staged for, or read from, a table's rdel section.
#[derive(Debug, Clone, Copy)]
pub struct RdelEntry<'a> {
    /// Inclusive start (non-empty).
    pub start: &'a [u8],
    /// Exclusive end (non-empty).
    pub end: &'a [u8],
    /// Sequence number of the range delete.
    pub seq: u64,
}

impl<'a> View for RdelEntry<'a> {
    type V = RdelV;

    open spec fn view(&self) -> RdelV {
        RdelV { start: self.start@, end: self.end@, seq: self.seq }
    }
}

/// Verifies an rdel block's CRC and returns its entry count.
///
/// # Errors
///
/// [`Error::CorruptBlock`] when the CRC is wrong, or bit 15 of the count is
/// set: rdel blocks are never compressed.
pub fn rdel_block_count<E, const BLOCK: usize>(block: &[u8; BLOCK], id: u64) -> (r: Result<
    usize,
    Error<E>,
>)
    requires
        BLOCK >= 6,
    ensures
        match rdel_count(block@) {
            None => r == Err::<usize, Error<E>>(Error::CorruptBlock { id }),
            Some(n) => r == Ok::<usize, Error<E>>(n as usize) && n < 0x8000,
        },
{
    match check_block_crc::<E, BLOCK>(block, id) {
        Ok(()) => {},
        Err(e) => {
            return Err(e);
        },
    }
    proof {
        lemma_pow256();
    }
    let raw: u64 = load_le(block, BLOCK - 6, 2);
    if raw >= 0x8000 {
        return Err(Error::CorruptBlock { id });
    }
    Ok(raw as usize)
}

/// Parses the rdel entry at `off`: the entry and the next offset.
pub fn rdel_parse_at(block: &[u8], off: usize) -> (r: Option<(RdelEntry<'_>, usize)>)
    requires
        off <= block@.len(),
    ensures
        match rdel_parse(block@.skip(off as int)) {
            None => r is None,
            Some((v, n)) => r matches Some((e, next)) && e@ == v && next == off + n && next
                <= block@.len(),
        },
{
    let size: usize = block.len();
    let ghost s = block@.skip(off as int);
    proof {
        lemma_pow256();
    }
    if size - off < 12 {
        return None;
    }
    proof {
        assert(s.subrange(0, 2) =~= block@.subrange(off as int, off + 2));
        assert(s.subrange(2, 4) =~= block@.subrange(off + 2, off + 4));
        assert(s.subrange(4, 12) =~= block@.subrange(off + 4, off + 12));
    }
    let sl: usize = load_le(block, off, 2) as usize;
    let el: usize = load_le(block, off + 2, 2) as usize;
    let seq: u64 = load_le(block, off + 4, 8);
    let left: usize = size - off - 12;
    if sl == 0 || el == 0 || sl > left || el > left - sl {
        return None;
    }
    let so: usize = off + 12;
    let eo: usize = so + sl;
    let end: usize = eo + el;
    proof {
        assert(s.subrange(12, 12 + sl) =~= block@.subrange(so as int, eo as int));
        assert(s.subrange(12 + sl, 12 + sl + el) =~= block@.subrange(eo as int, end as int));
    }
    Some((RdelEntry { start: &block[so..eo], end: &block[eo..end], seq }, end))
}

/// One parsed index entry.
pub struct IndexEntry<'a> {
    /// First key of the data block.
    pub key: &'a [u8],
    /// The data block's id.
    pub block_id: u64,
    /// Offset of the next index entry.
    pub next: usize,
}

/// Parses one index entry.
///
/// A zero `key_len` is rejected: block first-keys are never empty, so in a
/// CRC-verified block it marks zero padding (end of the index).
pub fn index_entry_parse(payload: &[u8], off: usize) -> (r: Option<IndexEntry<'_>>)
    requires
        off <= payload@.len(),
    ensures
        match idx_parse(payload@.skip(off as int)) {
            None => r is None,
            Some((key, id, n)) => r matches Some(e) && e.key@ == key && e.block_id == id && e.next
                == off + n && e.next <= payload@.len() && off < e.next,
        },
{
    let size: usize = payload.len();
    let ghost s = payload@.skip(off as int);
    proof {
        lemma_pow256();
    }
    if size - off < 2 {
        return None;
    }
    assert(s.subrange(0, 2) =~= payload@.subrange(off as int, off + 2));
    let kl: usize = load_le(payload, off, 2) as usize;
    let left: usize = size - off - 2;
    if kl == 0 || kl > left || left - kl < 16 {
        return None;
    }
    let ko: usize = off + 2;
    let io: usize = ko + kl;
    proof {
        assert(s.subrange(2, 2 + kl) =~= payload@.subrange(ko as int, io as int));
        assert(s.subrange(2 + kl, 10 + kl) =~= payload@.subrange(io as int, io + 8));
    }
    let block_id: u64 = load_le(payload, io, 8);
    Some(IndexEntry { key: &payload[ko..io], block_id, next: io + 16 })
}

/// The fields of a verified footer.
pub struct Footer {
    /// Index block id.
    pub index_block: u64,
    /// Bloom block id.
    pub bloom_block: u64,
    /// Entries in the table.
    pub entry_count: u64,
    /// Bloom probes.
    pub k: u8,
    /// Range-tombstone blocks.
    pub rdel_blocks: u32,
    /// Lowest sequence number in the table.
    pub min_seq: u64,
}

impl View for Footer {
    type V = FootV;

    open spec fn view(&self) -> FootV {
        FootV {
            index_block: self.index_block,
            bloom_block: self.bloom_block,
            entry_count: self.entry_count,
            k: self.k,
            rdel_blocks: self.rdel_blocks,
            min_seq: self.min_seq,
        }
    }
}

/// Verifies a footer block (CRC and magic) and returns its fields.
///
/// # Errors
///
/// [`Error::CorruptBlock`] when verification fails.
pub fn parse_footer<E, const BLOCK: usize>(block: &[u8; BLOCK], id: u64) -> (r: Result<
    Footer,
    Error<E>,
>)
    requires
        BLOCK >= 49,
    ensures
        match foot_of(block@) {
            None => r matches Err(e) && e == (Error::<E>::CorruptBlock { id }),
            Some(f) => r matches Ok(g) && g@ == f,
        },
{
    match check_block_crc::<E, BLOCK>(block, id) {
        Ok(()) => {},
        Err(e) => {
            return Err(e);
        },
    }
    proof {
        lemma_pow256();
    }
    if load_le(block, 0, 8) != super::format::SSTABLE_MAGIC {
        return Err(Error::CorruptBlock { id });
    }
    Ok(
        Footer {
            index_block: load_le(block, 8, 8),
            bloom_block: load_le(block, 16, 8),
            entry_count: load_le(block, 24, 8),
            k: block[32],
            rdel_blocks: load_le(block, 33, 4) as u32,
            min_seq: load_le(block, 37, 8),
        },
    )
}

} // verus!

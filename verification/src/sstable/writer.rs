//! Writing a table: the planner, the incremental writer, and its one-shot
//! form.

use vstd::prelude::*;

use super::bloom::{bloom_add, bloom_of, lemma_bloom_len};
use super::format::{
    body_of, ent_bytes, ent_len, ent_ok, entry_fits, ents_bytes, ents_len, foot_bytes, foot_of,
    group_low, group_ok, group_top, idx_bytes, index_bytes, is_data_block, law_entry_roundtrip,
    lemma_body_parts, lemma_idx_roundtrip, lemma_restarts_len, lz_body, off_of, restart_count,
    restarts_bytes, sealed, stored, zeros, FootV, RdelV, CRC_LEN, ENTRY_HEADER, FOOTER_LEN,
    MAX_ENTRIES_PER_BLOCK, SSTABLE_MAGIC,
};
use super::table::{flat_recs, keys_of, law_table_reads_back, stored_recs, stored_wf, RunV};
use crate::bytes::{
    copy_into, le_bytes, lemma_le_bytes_len, lemma_splice_append, spliced, store_le, zero_fill,
};
use crate::compress::{lz_encode, lz_worth, CompressScratch};
use crate::crc::crc32;
use crate::device::{
    lemma_synced_on, lemma_synced_wider, same_outside, synced_outside, BlockDevice,
};
use crate::error::Error;
use crate::keys::KeyBound;
use crate::memtable::{key_sorted, runs_newest_first, Rec};
use crate::wal::{padded, Op};

verus! {

/// One sorted-run entry.
#[derive(Debug, Clone, Copy)]
pub struct SstEntry<'a> {
    /// Key bytes (non-empty, `<= 0xFFFF`).
    pub key: &'a [u8],
    /// Value bytes (empty for tombstones).
    pub val: &'a [u8],
    /// Sequence number of the mutation.
    pub seq: u64,
    /// True for a deletion marker.
    pub tombstone: bool,
    /// Absolute expiry tick; 0 = no expiry. Stored on the wire only for
    /// non-tombstone entries.
    pub expire_at: u64,
}

impl<'a> View for SstEntry<'a> {
    type V = Rec;

    open spec fn view(&self) -> Rec {
        Rec {
            key: self.key@,
            val: self.val@,
            seq: self.seq,
            tombstone: self.tombstone,
            range_del: false,
            expire_at: self.expire_at,
        }
    }
}

/// The records of entries.
pub open spec fn entry_views(es: Seq<SstEntry<'_>>) -> Seq<Rec> {
    Seq::new(es.len(), |i: int| es[i]@)
}

/// Why an entry cannot be stored in any table.
pub open spec fn size_check<E>(e: Rec) -> Result<(), Error<E>> {
    let vl = if e.tombstone {
        0
    } else {
        e.val.len()
    };
    if e.key.len() == 0 {
        Err(Error::EmptyKey)
    } else if e.key.len() > 0xFFFF {
        Err(Error::KeyTooLarge { len: e.key.len() as usize, max: 0xFFFF })
    } else if vl > 0xFFFF {
        Err(Error::ValueTooLarge { len: vl as usize, max: 0xFFFF })
    } else {
        Ok(())
    }
}

/// Groups with one more entry: in the last block where it fits, else in a
/// new one.
pub open spec fn packed_with(gs: Seq<Seq<Rec>>, e: Rec, block: int) -> Seq<Seq<Rec>> {
    if gs.len() > 0 && entry_fits(
        ents_len(gs.last()) as int,
        gs.last().len() as int,
        ent_len(e) as int,
        block,
    ) {
        gs.update(gs.len() - 1, gs.last().push(e))
    } else {
        gs.push(seq![e])
    }
}

/// The packing rule: how entries spread over data blocks.
pub open spec fn pack(es: Seq<Rec>, block: int) -> Seq<Seq<Rec>>
    decreases es.len(),
{
    if es.len() == 0 {
        Seq::empty()
    } else {
        packed_with(pack(es.drop_last(), block), stored(es.last()), block)
    }
}

/// The entries as a table stores them.
pub open spec fn stored_all(es: Seq<Rec>) -> Seq<Rec> {
    Seq::new(es.len(), |i: int| stored(es[i]))
}

/// Packing neither drops nor reorders entries.
pub proof fn law_pack_keeps_entries(es: Seq<Rec>, block: int)
    ensures
        flat_recs(pack(es, block)) == stored_all(es),
        es.len() > 0 ==> pack(es, block).len() > 0 && pack(es, block).last().len() > 0,
        pack(es, block).len() <= es.len(),
    decreases es.len(),
{
    if es.len() == 0 {
        assert(stored_all(es) =~= Seq::<Rec>::empty());
    } else {
        let d = es.drop_last();
        law_pack_keeps_entries(d, block);
        let gs = pack(d, block);
        let e = stored(es.last());
        lemma_packed_flat(gs, e, block);
        assert(stored_all(es) =~= stored_all(d).push(e));
    }
}

/// One more packed entry is one more entry.
pub proof fn lemma_packed_flat(gs: Seq<Seq<Rec>>, e: Rec, block: int)
    ensures
        flat_recs(packed_with(gs, e, block)) == flat_recs(gs).push(e),
        packed_with(gs, e, block).len() > 0,
        packed_with(gs, e, block).last().len() > 0,
        packed_with(gs, e, block).len() <= gs.len() + 1,
{
    let w = packed_with(gs, e, block);
    if w.len() == gs.len() {
        assert(w.drop_last() =~= gs.drop_last());
        assert(w.last() =~= gs.last().push(e));
    } else {
        assert(w.drop_last() =~= gs);
        assert(w.last() =~= seq![e]);
    }
    assert(flat_recs(w) =~= flat_recs(gs).push(e));
}

/// Whether packing accepts every entry, and the first error otherwise.
pub open spec fn pack_check<E>(es: Seq<Rec>, block: int) -> Result<(), Error<E>>
    decreases es.len(),
{
    if es.len() == 0 {
        Ok(())
    } else {
        match pack_check::<E>(es.drop_last(), block) {
            Err(e) => Err(e),
            Ok(()) => match size_check::<E>(es.last()) {
                Err(e) => Err(e),
                Ok(()) => {
                    let gs = pack(es.drop_last(), block);
                    let n = ent_len(stored(es.last())) as int;
                    if gs.len() > 0 && entry_fits(
                        ents_len(gs.last()) as int,
                        gs.last().len() as int,
                        n,
                        block,
                    ) {
                        Ok(())
                    } else if entry_fits(0, 0, n, block) {
                        Ok(())
                    } else {
                        Err(Error::NoSpace)
                    }
                },
            },
        }
    }
}

/// Whether a plan accepts every entry, and the first error otherwise: no
/// key may be longer than `key_max`.
pub open spec fn plan_check<E>(es: Seq<Rec>, block: int, key_max: usize) -> Result<(), Error<E>>
    decreases es.len(),
{
    if es.len() == 0 {
        Ok(())
    } else {
        match plan_check::<E>(es.drop_last(), block, key_max) {
            Err(e) => Err(e),
            Ok(()) => match size_check::<E>(es.last()) {
                Err(e) => Err(e),
                Ok(()) => if es.last().key.len() > key_max {
                    Err(Error::KeyTooLarge { len: es.last().key.len() as usize, max: key_max })
                } else {
                    pack_check::<E>(es, block)
                },
            },
        }
    }
}

/// An accepted plan packs, and only the key bound tells a plan from a
/// packing.
pub proof fn lemma_plan_check<E>(es: Seq<Rec>, block: int, key_max: usize)
    ensures
        plan_check::<E>(es, block, key_max) is Ok ==> {
            &&& pack_check::<E>(es, block) is Ok
            &&& forall|i: int| 0 <= i < es.len() ==> (#[trigger] es[i]).key.len() <= key_max
        },
        (forall|i: int| 0 <= i < es.len() ==> (#[trigger] es[i]).key.len() <= key_max)
            ==> plan_check::<E>(es, block, key_max) == pack_check::<E>(es, block),
    decreases es.len(),
{
    if es.len() > 0 {
        let d = es.drop_last();
        lemma_plan_check::<E>(d, block, key_max);
        assert forall|i: int|
            0 <= i < es.len() && plan_check::<E>(es, block, key_max) is Ok implies (
        #[trigger] es[i]).key.len() <= key_max by {
            if i < d.len() {
                assert(d[i] == es[i]);
            }
        }
        if forall|i: int| 0 <= i < es.len() ==> (#[trigger] es[i]).key.len() <= key_max {
            assert forall|i: int| 0 <= i < d.len() implies (#[trigger] d[i]).key.len()
                <= key_max by {
                assert(d[i] == es[i]);
            }
            assert(es[es.len() - 1].key.len() <= key_max);
        }
    }
}

/// Pass-1 result: the table's shape, computed without any I/O.
///
/// [`plan_table`] and [`write_table`] share the packing rule, so the block
/// count here always matches the blocks the writer emits.
#[derive(Debug, Clone)]
pub struct TablePlan<const KEY_MAX: usize> {
    /// Data blocks the table will occupy.
    pub data_blocks: u64,
    /// Total entries (including tombstones).
    pub entry_count: u64,
    /// Highest sequence number.
    pub max_seq: u64,
    /// Lowest sequence number (`u64::MAX` without entries).
    pub min_seq: u64,
    /// Smallest key.
    pub first_key: KeyBound<KEY_MAX>,
    /// Largest key.
    pub last_key: KeyBound<KEY_MAX>,
}

/// Validated entry sizes: the entry's length on the wire.
///
/// Tombstones store no value bytes. Empty keys are rejected: the memtable
/// never holds them, and the reader relies on non-empty keys to tell index
/// entries apart from zero padding.
fn entry_sizes<E>(e: &SstEntry<'_>) -> (r: Result<usize, Error<E>>)
    ensures
        match size_check::<E>(e@) {
            Err(x) => r == Err::<usize, Error<E>>(x),
            Ok(()) => r matches Ok(n) && n == ent_len(stored(e@)) && ent_ok(stored(e@)) && n
                <= 0x2_0020,
        },
{
    let klen: usize = e.key.len();
    if klen == 0 {
        return Err(Error::EmptyKey);
    }
    if klen > 0xFFFF {
        return Err(Error::KeyTooLarge { len: klen, max: 0xFFFF });
    }
    let vlen: usize = if e.tombstone {
        0
    } else {
        e.val.len()
    };
    if vlen > 0xFFFF {
        return Err(Error::ValueTooLarge { len: vlen, max: 0xFFFF });
    }
    // TTL entries carry an 8-byte expiry after the value.
    let ttl: usize = if !e.tombstone && e.expire_at != 0 {
        8
    } else {
        0
    };
    Ok(ENTRY_HEADER + klen + vlen + ttl)
}

/// Whether an entry of `elen` bytes fits in a data block holding `payload`
/// bytes across `entries` entries.
fn fits<const BLOCK: usize>(payload: usize, entries: usize, elen: usize) -> (r: bool)
    ensures
        r == entry_fits(payload as int, entries as int, elen as int, BLOCK as int),
{
    if elen > BLOCK || entries >= MAX_ENTRIES_PER_BLOCK || payload > BLOCK {
        return false;
    }
    let tail: usize = 2 * (entries / 16 + 1) + 6;
    if tail > BLOCK || elen > BLOCK - tail {
        return false;
    }
    payload <= BLOCK - tail - elen
}

/// Computes the table shape (pass 1, no I/O). Entries must arrive in
/// key-ascending order; the caller reserved `data_blocks + 3` blocks (plus
/// the range-tombstone section) from this plan before it writes.
///
/// # Errors
///
/// [`Error::KeyTooLarge`] / [`Error::ValueTooLarge`] for oversize entries,
/// [`Error::NoSpace`] when an entry cannot fit any data block.
pub fn plan_table<E, const BLOCK: usize, const KEY_MAX: usize>(entries: &[SstEntry<'_>]) -> (r:
    Result<TablePlan<KEY_MAX>, Error<E>>)
    ensures
        ({
            let es = entry_views(entries@);
            match plan_check::<E>(es, BLOCK as int, KEY_MAX) {
                Err(e) => r matches Err(x) && x == e,
                Ok(()) => r matches Ok(p) && {
                    &&& p.data_blocks == pack(es, BLOCK as int).len()
                    &&& p.entry_count == es.len()
                    &&& p.max_seq == group_top(stored_all(es))
                    &&& p.min_seq == group_low(stored_all(es))
                    &&& p.first_key.wf()
                    &&& p.last_key.wf()
                    &&& p.first_key@ == (if es.len() == 0 {
                        Seq::empty()
                    } else {
                        es[0].key
                    })
                    &&& p.last_key@ == (if es.len() == 0 {
                        Seq::empty()
                    } else {
                        es.last().key
                    })
                },
            }
        }),
{
    let total: usize = entries.len();
    let ghost es = entry_views(entries@);
    let mut blocks: usize = 0;
    let mut payload: usize = 0;
    let mut n: usize = 0;
    let mut max_seq: u64 = 0;
    let mut min_seq: u64 = u64::MAX;
    let mut i: usize = 0;
    proof {
        assert(es.take(0) =~= Seq::<Rec>::empty());
        assert(stored_all(es.take(0)) =~= Seq::<Rec>::empty());
    }
    while i < total
        invariant
            total == entries@.len(),
            es == entry_views(entries@),
            i <= total,
            blocks <= i,
            plan_check::<E>(es.take(i as int), BLOCK as int, KEY_MAX) == Ok::<(), Error<E>>(()),
            blocks == pack(es.take(i as int), BLOCK as int).len(),
            i == 0 ==> n == 0 && payload == 0,
            i > 0 ==> blocks > 0 && n == pack(es.take(i as int), BLOCK as int).last().len()
                && payload == ents_len(pack(es.take(i as int), BLOCK as int).last()),
            n <= i,
            max_seq == group_top(stored_all(es.take(i as int))),
            min_seq == group_low(stored_all(es.take(i as int))),
        decreases total - i,
    {
        let e: SstEntry<'_> = entries[i];
        let ghost gs = pack(es.take(i as int), BLOCK as int);
        proof {
            assert(es.take(i + 1).drop_last() =~= es.take(i as int));
            assert(es.take(i + 1).last() == e@);
            law_pack_keeps_entries(es.take(i as int), BLOCK as int);
            lemma_plan_check::<E>(es.take(i as int), BLOCK as int, KEY_MAX);
            lemma_plan_check_prefix::<E>(es, BLOCK as int, KEY_MAX, i + 1);
            let sa = stored_all(es.take(i + 1));
            assert(sa.drop_last() =~= stored_all(es.take(i as int)));
            assert(sa.last() == stored(e@));
        }
        let elen: usize = match entry_sizes::<E>(&e) {
            Ok(v) => v,
            Err(x) => {
                return Err(x);
            },
        };
        if e.key.len() > KEY_MAX {
            return Err(Error::KeyTooLarge { len: e.key.len(), max: KEY_MAX });
        }
        if n > 0 && fits::<BLOCK>(payload, n, elen) {
            proof {
                let g = gs.last().push(stored(e@));
                assert(g.drop_last() =~= gs.last());
            }
            payload = payload + elen;
            n = n + 1;
        } else {
            if !fits::<BLOCK>(0, 0, elen) {
                return Err(Error::NoSpace);
            }
            proof {
                let g = seq![stored(e@)];
                assert(g.drop_last() =~= Seq::<Rec>::empty());
                assert(ents_len(g) == ent_len(stored(e@))) by {
                    reveal_with_fuel(ents_len, 2);
                }
            }
            blocks = blocks + 1;
            payload = elen;
            n = 1;
        }
        if e.seq > max_seq {
            max_seq = e.seq;
        }
        if e.seq < min_seq {
            min_seq = e.seq;
        }
        i = i + 1;
    }
    proof {
        assert(es.take(total as int) =~= es);
    }
    let mut first_key: KeyBound<KEY_MAX> = KeyBound::empty();
    let mut last_key: KeyBound<KEY_MAX> = KeyBound::empty();
    if total > 0 {
        proof {
            lemma_plan_check::<E>(es, BLOCK as int, KEY_MAX);
            lemma_checked_sizes::<E>(es, BLOCK as int, 0);
            lemma_checked_sizes::<E>(es, BLOCK as int, total - 1);
            assert(es[0].key.len() <= KEY_MAX);
            assert(es[total - 1].key.len() <= KEY_MAX);
        }
        match KeyBound::from_slice(entries[0].key) {
            Some(k) => {
                first_key = k;
            },
            None => {
                return Err(Error::KeyTooLarge { len: entries[0].key.len(), max: KEY_MAX });
            },
        }
        match KeyBound::from_slice(entries[total - 1].key) {
            Some(k) => {
                last_key = k;
            },
            None => {
                return Err(Error::KeyTooLarge { len: entries[total - 1].key.len(), max: KEY_MAX });
            },
        }
    }
    Ok(
        TablePlan {
            data_blocks: blocks as u64,
            entry_count: total as u64,
            max_seq,
            min_seq,
            first_key,
            last_key,
        },
    )
}

/// The first error of a prefix is the first error of the whole.
proof fn lemma_plan_check_prefix<E>(es: Seq<Rec>, block: int, key_max: usize, n: int)
    requires
        0 <= n <= es.len(),
    ensures
        plan_check::<E>(es.take(n), block, key_max) is Err ==> plan_check::<E>(es, block, key_max)
            == plan_check::<E>(es.take(n), block, key_max),
    decreases es.len() - n,
{
    if n < es.len() {
        lemma_plan_check_prefix::<E>(es, block, key_max, n + 1);
        assert(es.take(n + 1).drop_last() =~= es.take(n));
    } else {
        assert(es.take(n) =~= es);
    }
}

/// Accepted entries have storable sizes.
proof fn lemma_checked_sizes<E>(es: Seq<Rec>, block: int, i: int)
    requires
        pack_check::<E>(es, block) is Ok,
        0 <= i < es.len(),
    ensures
        size_check::<E>(es[i]) is Ok,
        1 <= es[i].key.len() <= 0xFFFF,
    decreases es.len(),
{
    if i < es.len() - 1 {
        lemma_checked_sizes::<E>(es.drop_last(), block, i);
    }
}

// ---------------------------------------------------------------------
// Sealing blocks.

/// Seals `payload` bytes of `buf` as a block without restarts: zero padding,
/// trailing CRC32, then a single device write.
pub fn seal_meta_block<D: BlockDevice, const BLOCK: usize>(
    device: &mut D,
    id: u64,
    buf: &mut [u8; BLOCK],
    payload: usize,
) -> (r: Result<(), Error<D::Error>>)
    requires
        D::BLOCK == BLOCK,
        BLOCK >= CRC_LEN,
        payload + CRC_LEN <= BLOCK,
    ensures
        final(device).content() == old(device).content().insert(id, final(device).content()[id]),
        synced_outside(&*old(device), &*final(device), id as int, id + 1),
        match r {
            Ok(()) => final(device).content()[id] == sealed(
                padded(old(buf)@.take(payload as int), (BLOCK - CRC_LEN) as nat),
            ),
            Err(e) => e is Device,
        },
{
    let end: usize = BLOCK - CRC_LEN;
    zero_fill(buf, payload, end);
    let ghost p = padded(old(buf)@.take(payload as int), end as nat);
    proof {
        reveal(spliced);
        assert(buf@.subrange(0, end as int) =~= p);
    }
    let crc: u32 = crc32(&buf[0..end]);
    store_le(buf, end, crc as u64, 4);
    proof {
        broadcast use lemma_le_bytes_len;

        reveal(spliced);
        assert(buf@ =~= sealed(p));
    }
    match device.write_block(id, buf) {
        Ok(()) => Ok(()),
        Err(e) => Err(Error::Device(e)),
    }
}

/// Writes the restart tail behind the entries of `buf`, zero padding between.
fn finish_body<const BLOCK: usize>(
    buf: &mut [u8; BLOCK],
    payload: usize,
    restarts: &[u16; 128],
    count: usize,
    Ghost(es): Ghost<Seq<Rec>>,
)
    requires
        group_ok(es, BLOCK as int),
        payload == ents_len(es),
        old(buf)@.take(payload as int) == ents_bytes(es),
        count == restart_count(es.len() as int),
        forall|r: int| 0 <= r < count ==> #[trigger] restarts@[r] == off_of(es, 16 * r),
    ensures
        final(buf)@.take(BLOCK - CRC_LEN) == body_of(es, BLOCK - CRC_LEN),
{
    broadcast use lemma_le_bytes_len;

    let end: usize = BLOCK - CRC_LEN;
    let rstart: usize = end - (2 * count + 2);
    proof {
        lemma_body_parts(es, BLOCK as int);
        reveal(spliced);
    }
    zero_fill(buf, payload, rstart);
    let ghost front = ents_bytes(es) + zeros(rstart - payload);
    assert(buf@.take(rstart as int) =~= front);
    let mut i: usize = 0;
    proof {
        assert(buf@.take(rstart as int) =~= front + restarts_bytes(es, 0));
    }
    while i < count
        invariant
            i <= count,
            count <= 128,
            rstart + 2 * count + 2 <= BLOCK,
            forall|r: int| 0 <= r < count ==> #[trigger] restarts@[r] == off_of(es, 16 * r),
            front.len() == rstart,
            buf@.take(rstart + 2 * i) == front + restarts_bytes(es, i as int),
        decreases count - i,
    {
        let ghost before = buf@;
        let v: u16 = restarts[i];
        store_le(buf, rstart + 2 * i, v as u64, 2);
        proof {
            broadcast use lemma_le_bytes_len;

            reveal(spliced);
            lemma_restarts_len(es, i as int);
            assert(restarts@[i as int] == off_of(es, 16 * (i as int)));
            assert(buf@.take(rstart + 2 * (i + 1)) =~= before.take(rstart + 2 * i) + le_bytes(
                v as nat,
                2,
            ));
            assert(restarts_bytes(es, i + 1) == restarts_bytes(es, i as int) + le_bytes(
                v as nat,
                2,
            ));
            assert(buf@.take(rstart + 2 * (i + 1)) =~= front + restarts_bytes(es, i + 1));
        }
        i = i + 1;
    }
    let ghost before = buf@;
    store_le(buf, end - 2, count as u64, 2);
    proof {
        reveal(spliced);
        lemma_restarts_len(es, count as int);
        assert(buf@.take(end as int) =~= before.take(end - 2) + le_bytes(count as nat, 2));
        assert(buf@.take(end as int) =~= body_of(es, BLOCK - CRC_LEN));
    }
}

/// Seals a data block: restart tail, zero padding, compression where it is
/// asked for and pays, trailing CRC32, then a single device write.
///
/// The restart tail (offsets + count) is right-aligned: it ends exactly at
/// `BLOCK - CRC_LEN`, so the reader locates it from the block end without
/// knowing the payload length.
///
/// With `compress` the whole logical body (entries, zero fill, restart tail)
/// is fed to the codec, and the compressed form is kept when it saves at
/// least `COMPRESS_MIN_SAVING` bytes. A kept block has bit 15 of the trailer
/// count u16 set, with the low 15 bits carrying the compressed length.
fn seal_data_block<D: BlockDevice, const BLOCK: usize>(
    device: &mut D,
    id: u64,
    buf: &mut [u8; BLOCK],
    payload: usize,
    restarts: &[u16; 128],
    count: usize,
    compress: Option<&mut CompressScratch<BLOCK>>,
    Ghost(es): Ghost<Seq<Rec>>,
) -> (r: Result<(), Error<D::Error>>)
    requires
        D::BLOCK == BLOCK,
        group_ok(es, BLOCK as int),
        payload == ents_len(es),
        old(buf)@.take(payload as int) == ents_bytes(es),
        count == restart_count(es.len() as int),
        forall|r: int| 0 <= r < count ==> #[trigger] restarts@[r] == off_of(es, 16 * r),
        compress matches Some(cs) ==> cs.wf(),
    ensures
        compress matches Some(cs) ==> final(cs).wf(),
        final(device).content() == old(device).content().insert(id, final(device).content()[id]),
        synced_outside(&*old(device), &*final(device), id as int, id + 1),
        match r {
            Ok(()) => {
                let b = final(device).content()[id];
                &&& is_data_block(b, es, BLOCK as int)
                &&& b == data_image(es, compress is Some, BLOCK as int)
            },
            Err(e) => e is Device,
        },
{
    broadcast use lemma_le_bytes_len;

    let end: usize = BLOCK - CRC_LEN;
    let ghost body = body_of(es, BLOCK - CRC_LEN);
    proof {
        lemma_body_parts(es, BLOCK as int);
    }
    finish_body(buf, payload, restarts, count, Ghost(es));
    assert(buf@.subrange(0, end as int) =~= body);
    let ghost on = compress is Some;
    let ghost mut goal = body;
    match compress {
        Some(cs) => {
            match cs.compress(&buf[0..end]) {
                Some(clen) => {
                    let ghost enc = lz_encode(body);
                    copy_into(buf, 0, cs.compressed());
                    zero_fill(buf, clen, end);
                    store_le(buf, end - 2, 0x8000 + clen as u64, 2);
                    proof {
                        reveal(spliced);
                        assert(buf@.subrange(0, end as int) =~= lz_body(body));
                        goal = lz_body(body);
                    }
                },
                None => {},
            }
        },
        None => {},
    }
    let crc: u32 = crc32(&buf[0..end]);
    store_le(buf, end, crc as u64, 4);
    proof {
        reveal(spliced);
        assert(goal.len() == end);
        assert(buf@ =~= sealed(goal));
    }
    match device.write_block(id, buf) {
        Ok(()) => Ok(()),
        Err(e) => Err(Error::Device(e)),
    }
}

// ---------------------------------------------------------------------
// The incremental writer.

/// What [`TableWriter::push`] did with one entry.
#[derive(Debug, Clone, Copy, PartialEq, Eq, Structural)]
pub enum PushOutcome {
    /// Buffered in the staging block; no I/O happened.
    Buffered,
    /// The staging block filled up and was sealed to the device (one block
    /// write); the entry went into a fresh block.
    BlockSealed,
}

/// Table statistics reported by [`TableWriter::finish`].
#[derive(Debug, Clone)]
pub struct FinishedTable<const KEY_MAX: usize> {
    /// Data blocks written.
    pub data_blocks: u64,
    /// Key/value entries written (including tombstones).
    pub entry_count: u64,
    /// Highest sequence number written.
    pub max_seq: u64,
    /// Lowest sequence number written, range tombstones counted.
    pub min_seq: u64,
    /// Smallest key written.
    pub first_key: KeyBound<KEY_MAX>,
    /// Largest key written.
    pub last_key: KeyBound<KEY_MAX>,
}

/// The bytes of the data block that holds `es`: compressed when `lz` says
/// so and it pays, raw otherwise.
pub open spec fn data_image(es: Seq<Rec>, lz: bool, block: int) -> Seq<u8> {
    let body = body_of(es, block - CRC_LEN);
    if lz && lz_worth(body) {
        sealed(lz_body(body))
    } else {
        sealed(body)
    }
}

/// The blocks from `base` on are those that hold the groups, compressed
/// where `lz` says so and it pays.
pub open spec fn data_imaged(
    c: Map<u64, Seq<u8>>,
    base: u64,
    groups: Seq<Seq<Rec>>,
    lz: bool,
    block: int,
) -> bool {
    forall|b: int|
        0 <= b < groups.len() ==> c[(base + b) as u64] == data_image(
            #[trigger] groups[b],
            lz,
            block,
        )
}

/// A table being written.
#[verifier::ext_equal]
pub struct WriterV {
    /// First block.
    pub base: u64,
    /// Bloom probes per key.
    pub k: u8,
    /// Data blocks the writer may seal.
    pub limit: u64,
    /// The entries of the sealed blocks.
    pub groups: Seq<Seq<Rec>>,
    /// The staged entries.
    pub cur: Seq<Rec>,
}

impl WriterV {
    /// All blocks, the staged one last.
    pub open spec fn blocks(self) -> Seq<Seq<Rec>> {
        if self.cur.len() == 0 {
            self.groups
        } else {
            self.groups.push(self.cur)
        }
    }

    /// All entries.
    pub open spec fn all(self) -> Seq<Rec> {
        flat_recs(self.groups) + self.cur
    }

    /// The sealed blocks are on the device.
    pub open spec fn on(self, c: Map<u64, Seq<u8>>, block: int) -> bool {
        forall|b: int|
            0 <= b < self.groups.len() ==> is_data_block(
                c[(self.base + b) as u64],
                #[trigger] self.groups[b],
                block,
            )
    }

    /// The sealed blocks are on the device, compressed where `lz` says so
    /// and it pays.
    pub open spec fn imaged(self, c: Map<u64, Seq<u8>>, lz: bool, block: int) -> bool {
        data_imaged(c, self.base, self.groups, lz, block)
    }

    /// The staged block can be sealed: within the limit and the id space.
    pub open spec fn may_seal(self) -> bool {
        self.groups.len() < self.limit && self.base + self.groups.len() <= u64::MAX
    }

    /// The index has room for the staged block.
    pub open spec fn index_room(self, block: int) -> bool {
        index_bytes(self.groups, self.base, self.groups.len() as int).len() + 18
            + self.cur[0].key.len() <= block - 4
    }
}

/// What a push of an entry does.
pub enum PushPlan<E> {
    /// Refused before any I/O.
    Refuse(Error<E>),
    /// Staged.
    Buffer,
    /// The staged block is sealed; the entry is staged next, or refused.
    Seal(Option<Error<E>>),
}

/// The plan of a push.
pub open spec fn push_plan<E>(v: WriterV, e: Rec, block: int, key_max: usize) -> PushPlan<E> {
    let n = ent_len(stored(e)) as int;
    match size_check::<E>(e) {
        Err(x) => PushPlan::Refuse(x),
        Ok(()) => {
            if e.key.len() > key_max {
                PushPlan::Refuse(
                    Error::KeyTooLarge { len: e.key.len() as usize, max: key_max },
                )
            } else if entry_fits(ents_len(v.cur) as int, v.cur.len() as int, n, block) {
                if v.cur.len() % 16 == 0 && ents_len(v.cur) > 0xFFFF {
                    PushPlan::Refuse(Error::NoSpace)
                } else {
                    PushPlan::Buffer
                }
            } else if v.cur.len() == 0 || !v.may_seal() {
                PushPlan::Refuse(Error::NoSpace)
            } else if !v.index_room(block) || !entry_fits(0, 0, n, block) {
                PushPlan::Seal(Some(Error::NoSpace))
            } else {
                PushPlan::Seal(None)
            }
        },
    }
}

/// Incremental `SSTable` writer: the pausable form of [`write_table`].
///
/// Entries are pushed one at a time; when the staging data block fills,
/// [`push`](TableWriter::push) seals it to the device and reports
/// [`PushOutcome::BlockSealed`], which is the natural quantum for
/// caller-driven bounded work (compaction). [`finish`](TableWriter::finish)
/// seals the trailing partial block and writes the bloom, index, and footer
/// blocks, then flushes the device, so the table is durable before the
/// manifest commit that makes it visible.
///
/// Entries must arrive in key-ascending order; keys are bounded by `KEY_MAX`.
/// The table occupies a contiguous run starting at `base`: the caller must
/// have reserved at least the blocks the merge will actually emit (see
/// [`plan_table`] for the exact shape of a known entry sequence).
pub struct TableWriter<const BLOCK: usize, const BLOOM_BYTES: usize, const KEY_MAX: usize> {
    base: u64,
    k: u8,
    limit: u64,
    data: [u8; BLOCK],
    index: [u8; BLOCK],
    bloom: [u8; BLOOM_BYTES],
    restarts: [u16; 128],
    payload: usize,
    n: usize,
    nrestarts: usize,
    index_len: usize,
    data_blocks: u64,
    entry_count: u64,
    block_first: KeyBound<KEY_MAX>,
    block_max_seq: u64,
    first_key: KeyBound<KEY_MAX>,
    last_key: KeyBound<KEY_MAX>,
    max_seq: u64,
    min_seq: u64,
    groups: Ghost<Seq<Seq<Rec>>>,
    cur: Ghost<Seq<Rec>>,
}

impl<const BLOCK: usize, const BLOOM_BYTES: usize, const KEY_MAX: usize> View for TableWriter<
    BLOCK,
    BLOOM_BYTES,
    KEY_MAX,
> {
    type V = WriterV;

    closed spec fn view(&self) -> WriterV {
        WriterV {
            base: self.base,
            k: self.k,
            limit: self.limit,
            groups: self.groups@,
            cur: self.cur@,
        }
    }
}

impl<const BLOCK: usize, const BLOOM_BYTES: usize, const KEY_MAX: usize> TableWriter<
    BLOCK,
    BLOOM_BYTES,
    KEY_MAX,
> {
    /// Sizes that the writer can work with.
    pub open spec fn shape_ok() -> bool {
        &&& BLOCK >= FOOTER_LEN + CRC_LEN
        &&& 1 <= BLOOM_BYTES
        &&& BLOOM_BYTES + CRC_LEN <= BLOCK
        &&& BLOOM_BYTES * 8 <= usize::MAX
    }

    /// The staging buffers hold what was pushed.
    pub closed spec fn wf(&self) -> bool {
        let v = self@;
        let all = v.all();
        &&& Self::shape_ok()
        &&& v.cur.len() > 0 ==> group_ok(v.cur, BLOCK as int)
        &&& forall|b: int| 0 <= b < v.groups.len() ==> group_ok(#[trigger] v.groups[b], BLOCK as int)
        &&& self.payload == ents_len(v.cur)
        &&& self.payload <= BLOCK
        &&& self.data@.take(self.payload as int) == ents_bytes(v.cur)
        &&& self.n == v.cur.len()
        &&& self.n <= MAX_ENTRIES_PER_BLOCK
        &&& self.nrestarts == restart_count(v.cur.len() as int)
        &&& forall|r: int|
            0 <= r < self.nrestarts ==> #[trigger] self.restarts@[r] == off_of(v.cur, 16 * r)
        &&& self.data_blocks == v.groups.len()
        &&& v.base + v.groups.len() <= u64::MAX + 1
        &&& self.index_len + CRC_LEN <= BLOCK
        &&& self.index@.take(self.index_len as int) == index_bytes(
            v.groups,
            v.base,
            v.groups.len() as int,
        )
        &&& self.bloom@ == bloom_of(keys_of(all), v.k, BLOOM_BYTES as nat)
        &&& self.entry_count == all.len()
        &&& self.block_first.wf()
        &&& v.cur.len() > 0 ==> self.block_first@ == v.cur[0].key
        &&& self.block_max_seq == group_top(v.cur)
        &&& self.first_key.wf()
        &&& self.last_key.wf()
        &&& self.first_key@ == (if all.len() == 0 {
            Seq::empty()
        } else {
            all[0].key
        })
        &&& self.last_key@ == (if all.len() == 0 {
            Seq::empty()
        } else {
            all.last().key
        })
        &&& self.max_seq == group_top(all)
        &&& self.min_seq == group_low(all)
    }

    /// What every well-formed writer satisfies.
    pub proof fn lemma_wf(&self)
        requires
            self.wf(),
        ensures
            self@.base + self@.groups.len() <= u64::MAX + 1,
            self@.all().len() <= u64::MAX,
            self@.cur.len() > 0 ==> group_ok(self@.cur, BLOCK as int),
            forall|b: int|
                0 <= b < self@.groups.len() ==> group_ok(#[trigger] self@.groups[b], BLOCK as int),
            index_bytes(self@.groups, self@.base, self@.groups.len() as int).len() + CRC_LEN
                <= BLOCK,
    {
        assert(self.index@.take(self.index_len as int).len() == self.index_len);
    }

    /// A table's index bounds how many entries it holds.
    pub proof fn lemma_entry_bound(&self)
        requires
            self.wf(),
            BLOCK <= 0x7_0000,
        ensures
            self@.all().len() <= 0x10_0000_0000,
    {
        self.lemma_wf();
        let v = self@;
        lemma_index_len(v.groups, v.base, v.groups.len() as int, BLOCK as int);
        lemma_flat_bound(v.groups, BLOCK as int);
    }

    /// Starts a table at `base` with `k` bloom probes per key.
    #[must_use]
    pub fn new(base: u64, k: u8) -> (r: Self)
        ensures
            Self::shape_ok() ==> r.wf(),
            r@ == (WriterV {
                base,
                k,
                limit: u64::MAX,
                groups: Seq::empty(),
                cur: Seq::empty(),
            }),
    {
        let r = TableWriter {
            base,
            k,
            limit: u64::MAX,
            data: [0u8; BLOCK],
            index: [0u8; BLOCK],
            bloom: [0u8; BLOOM_BYTES],
            restarts: [0u16; 128],
            payload: 0,
            n: 0,
            nrestarts: 0,
            index_len: 0,
            data_blocks: 0,
            entry_count: 0,
            block_first: KeyBound::empty(),
            block_max_seq: 0,
            first_key: KeyBound::empty(),
            last_key: KeyBound::empty(),
            max_seq: 0,
            min_seq: u64::MAX,
            groups: Ghost(Seq::empty()),
            cur: Ghost(Seq::empty()),
        };
        proof {
            let all = r@.all();
            assert(all =~= Seq::<Rec>::empty());
            assert(r.data@.take(0) =~= Seq::<u8>::empty());
            assert(r.index@.take(0) =~= Seq::<u8>::empty());
            assert(keys_of(all) =~= Seq::<Seq<u8>>::empty());
            assert(r.bloom@ =~= bloom_of(keys_of(all), k, BLOOM_BYTES as nat));
        }
        r
    }

    /// The same writer, refusing to seal more than `limit` data blocks.
    #[must_use]
    pub fn with_block_limit(self, limit: u64) -> (r: Self)
        ensures
            self.wf() ==> r.wf(),
            r@ == (WriterV { limit, ..self@ }),
    {
        let mut w = self;
        w.limit = limit;
        w
    }

    /// Entries pushed so far.
    #[must_use]
    pub fn entry_count(&self) -> (r: u64)
        requires
            self.wf(),
        ensures
            r == self@.all().len(),
    {
        self.entry_count
    }

    /// Data blocks sealed so far (bloom/index/footer not included).
    #[must_use]
    pub fn data_blocks(&self) -> (r: u64)
        requires
            self.wf(),
        ensures
            r == self@.groups.len(),
    {
        self.data_blocks
    }

    /// Seals the staged block and appends its index entry.
    fn seal_current<D: BlockDevice>(
        &mut self,
        device: &mut D,
        compress: Option<&mut CompressScratch<BLOCK>>,
    ) -> (r: Result<(), Error<D::Error>>)
        requires
            old(self).wf(),
            D::BLOCK == BLOCK,
            old(self)@.cur.len() > 0,
            compress matches Some(cs) ==> cs.wf(),
        ensures
            compress matches Some(cs) ==> final(cs).wf(),
            synced_outside(
                &*old(device),
                &*final(device),
                old(self)@.base + old(self)@.groups.len(),
                old(self)@.base + old(self)@.groups.len() + 1,
            ),
            !old(self)@.may_seal() ==> {
                &&& r == Err::<(), Error<D::Error>>(Error::NoSpace)
                &&& *final(device) == *old(device)
                &&& *final(self) == *old(self)
            },
            old(self)@.may_seal() ==> {
                let id = (old(self)@.base + old(self)@.groups.len()) as u64;
                &&& final(device).content() == old(device).content().insert(
                    id,
                    final(device).content()[id],
                )
                &&& match r {
                    Ok(()) => {
                        &&& old(self)@.index_room(BLOCK as int)
                        &&& is_data_block(
                            final(device).content()[id],
                            old(self)@.cur,
                            BLOCK as int,
                        )
                        &&& final(device).content()[id] == data_image(
                            old(self)@.cur,
                            compress is Some,
                            BLOCK as int,
                        )
                        &&& final(self).wf()
                        &&& final(self)@ == (WriterV {
                            groups: old(self)@.groups.push(old(self)@.cur),
                            cur: Seq::empty(),
                            ..old(self)@
                        })
                    },
                    Err(Error::NoSpace) => !old(self)@.index_room(BLOCK as int),
                    Err(e) => e is Device,
                }
            },
    {
        let ghost v0 = self@;
        if self.data_blocks >= self.limit {
            return Err(Error::NoSpace);
        }
        let id: u64 = match self.base.checked_add(self.data_blocks) {
            None => {
                return Err(Error::NoSpace);
            },
            Some(id) => id,
        };
        match seal_data_block(
            device,
            id,
            &mut self.data,
            self.payload,
            &self.restarts,
            self.nrestarts,
            compress,
            Ghost(v0.cur),
        ) {
            Ok(()) => {},
            Err(e) => {
                return Err(e);
            },
        }
        let klen: usize = self.block_first.len as usize;
        proof {
            assert(ent_ok(v0.cur[0]));
            lemma_idx_roundtrip(v0.cur[0].key, id, group_top(v0.cur), Seq::empty());
            let ib = index_bytes(v0.groups, v0.base, v0.groups.len() as int);
            assert(ib.len() == self.index_len);
        }
        if 18 + klen > BLOCK - CRC_LEN - self.index_len {
            return Err(Error::NoSpace);
        }
        let ghost index0 = self.index@;
        let ghost ent = idx_bytes(v0.cur[0].key, id, group_top(v0.cur));
        let at: usize = self.index_len;
        proof {
            let kb = le_bytes(klen as nat, 2);
            let key = v0.cur[0].key;
            lemma_le_bytes_len(klen as nat, 2);
            lemma_le_bytes_len(id as nat, 8);
            lemma_le_bytes_len(self.block_max_seq as nat, 8);
            lemma_splice_append(index0, at as int, kb, key);
            lemma_splice_append(index0, at as int, kb + key, le_bytes(id as nat, 8));
            lemma_splice_append(
                index0,
                at as int,
                kb + key + le_bytes(id as nat, 8),
                le_bytes(self.block_max_seq as nat, 8),
            );
            reveal(idx_bytes);
            assert(kb + key + le_bytes(id as nat, 8) + le_bytes(self.block_max_seq as nat, 8)
                =~= ent);
        }
        store_le(&mut self.index, at, klen as u64, 2);
        copy_into(&mut self.index, at + 2, self.block_first.as_slice());
        store_le(&mut self.index, at + 2 + klen, id, 8);
        store_le(&mut self.index, at + 10 + klen, self.block_max_seq, 8);
        let ghost gs = v0.groups.push(v0.cur);
        proof {
            reveal(spliced);
            let n = v0.groups.len() as int;
            lemma_index_prefix(v0.groups, gs, v0.base, n);
            assert(self.index@.take(self.index_len + ent.len()) =~= index0.take(
                self.index_len as int,
            ) + ent);
            assert(gs[n] == v0.cur);
            assert(index_bytes(gs, v0.base, n + 1) == index_bytes(gs, v0.base, n) + ent);
        }
        self.index_len = self.index_len + 18 + klen;
        self.data_blocks = self.data_blocks + 1;
        self.payload = 0;
        self.n = 0;
        self.nrestarts = 0;
        self.block_first = KeyBound::empty();
        self.block_max_seq = 0;
        proof {
            self.groups@ = gs;
            self.cur@ = Seq::empty();
            let all = self@.all();
            assert(gs.drop_last() =~= v0.groups);
            assert(all =~= v0.all());
            assert(self.data@.take(0) =~= Seq::<u8>::empty());
            assert forall|b: int| 0 <= b < gs.len() implies group_ok(
                #[trigger] gs[b],
                BLOCK as int,
            ) by {
                if b < v0.groups.len() {
                    assert(gs[b] == v0.groups[b]);
                }
            }
        }
        Ok(())
    }

    /// Stages one entry that fits.
    #[verifier::rlimit(40)]
    fn stage(&mut self, e: &SstEntry<'_>, elen: usize)
        requires
            old(self).wf(),
            ent_ok(stored(e@)),
            e@.key.len() <= KEY_MAX,
            elen == ent_len(stored(e@)),
            old(self)@.all().len() < u64::MAX,
            entry_fits(
                ents_len(old(self)@.cur) as int,
                old(self)@.cur.len() as int,
                elen as int,
                BLOCK as int,
            ),
            old(self)@.cur.len() % 16 == 0 ==> ents_len(old(self)@.cur) <= 0xFFFF,
        ensures
            final(self).wf(),
            final(self)@ == (WriterV { cur: old(self)@.cur.push(stored(e@)), ..old(self)@ }),
    {
        let ghost v0 = self@;
        let ghost s = stored(e@);
        let ghost cur = v0.cur.push(s);
        proof {
            assert(cur.drop_last() =~= v0.cur);
            assert(cur.last() == s);
            lemma_restart_step(v0.cur, s);
        }
        if self.n % 16 == 0 {
            self.restarts[self.nrestarts] = self.payload as u16;
            self.nrestarts = self.nrestarts + 1;
        }
        proof {
            law_entry_roundtrip(s, Seq::empty());
        }
        let ghost data0 = self.data@;
        let p: usize = self.payload;
        encode_entry(&mut self.data, p, e);
        proof {
            reveal(spliced);
            assert(self.data@.take(p + elen) =~= data0.take(p as int) + ent_bytes(s));
            assert(ents_bytes(cur) == ents_bytes(v0.cur) + ent_bytes(s));
        }
        let kb: KeyBound<KEY_MAX> = match KeyBound::from_slice(e.key) {
            Some(k) => k,
            None => KeyBound::empty(),
        };
        if self.n == 0 {
            self.block_first = kb;
        }
        if e.seq > self.block_max_seq {
            self.block_max_seq = e.seq;
        }
        if self.entry_count == 0 {
            self.first_key = kb;
        }
        self.last_key = kb;
        if e.seq > self.max_seq {
            self.max_seq = e.seq;
        }
        if e.seq < self.min_seq {
            self.min_seq = e.seq;
        }
        proof {
            lemma_bloom_len(keys_of(v0.all()), v0.k, BLOOM_BYTES as nat);
        }
        bloom_add(&mut self.bloom, e.key, self.k);
        self.payload = self.payload + elen;
        self.n = self.n + 1;
        self.entry_count = self.entry_count + 1;
        proof {
            self.cur@ = cur;
            let all = self@.all();
            assert(all =~= v0.all().push(s));
            assert(all.drop_last() =~= v0.all());
            assert(keys_of(all).drop_last() =~= keys_of(v0.all()));
            assert(keys_of(all).last() == s.key);
            lemma_group_step(v0.cur, s, BLOCK as int);
        }
    }

    /// Pushes one entry, sealing the staging block first when the entry no
    /// longer fits. Returns [`PushOutcome::BlockSealed`] exactly when a
    /// device write happened.
    ///
    /// `compress` is the caller's compression scratch (`None` = store raw).
    /// A sealed data block is trial-compressed; the compressed form is
    /// kept only when it saves at least
    /// [`COMPRESS_MIN_SAVING`](crate::compress::COMPRESS_MIN_SAVING) bytes.
    ///
    /// # Errors
    ///
    /// [`Error::KeyTooLarge`] / [`Error::ValueTooLarge`] for oversize
    /// entries, [`Error::NoSpace`] when a single entry cannot fit in an
    /// empty block, the table outgrows its block limit, or the index
    /// would overflow one block, or [`Error::Device`] on I/O failure. After
    /// an error of the device or of a full index the writer is spent.
    pub fn push<D: BlockDevice>(
        &mut self,
        device: &mut D,
        e: SstEntry<'_>,
        compress: Option<&mut CompressScratch<BLOCK>>,
    ) -> (r: Result<PushOutcome, Error<D::Error>>)
        requires
            old(self).wf(),
            D::BLOCK == BLOCK,
            old(self)@.all().len() < u64::MAX,
            compress matches Some(cs) ==> cs.wf(),
        ensures
            compress matches Some(cs) ==> final(cs).wf(),
            synced_outside(
                &*old(device),
                &*final(device),
                old(self)@.base + old(self)@.groups.len(),
                old(self)@.base + old(self)@.groups.len() + 1,
            ),
            match push_plan::<D::Error>(old(self)@, e@, BLOCK as int, KEY_MAX) {
                PushPlan::Refuse(x) => {
                    &&& r == Err::<PushOutcome, Error<D::Error>>(x)
                    &&& *final(device) == *old(device)
                    &&& *final(self) == *old(self)
                },
                PushPlan::Buffer => {
                    &&& r == Ok::<PushOutcome, Error<D::Error>>(PushOutcome::Buffered)
                    &&& *final(device) == *old(device)
                    &&& final(self).wf()
                    &&& final(self)@ == (WriterV {
                        cur: old(self)@.cur.push(stored(e@)),
                        ..old(self)@
                    })
                },
                PushPlan::Seal(x) => {
                    let id = (old(self)@.base + old(self)@.groups.len()) as u64;
                    &&& final(device).content() == old(device).content().insert(
                        id,
                        final(device).content()[id],
                    )
                    &&& match r {
                        Ok(o) => {
                            &&& x is None
                            &&& o == PushOutcome::BlockSealed
                            &&& is_data_block(
                                final(device).content()[id],
                                old(self)@.cur,
                                BLOCK as int,
                            )
                            &&& final(device).content()[id] == data_image(
                                old(self)@.cur,
                                compress is Some,
                                BLOCK as int,
                            )
                            &&& final(self).wf()
                            &&& final(self)@ == (WriterV {
                                groups: old(self)@.groups.push(old(self)@.cur),
                                cur: seq![stored(e@)],
                                ..old(self)@
                            })
                        },
                        Err(err) => err is Device || x == Some(err),
                    }
                },
            },
    {
        let elen: usize = match entry_sizes::<D::Error>(&e) {
            Ok(n) => n,
            Err(x) => {
                return Err(x);
            },
        };
        if e.key.len() > KEY_MAX {
            return Err(Error::KeyTooLarge { len: e.key.len(), max: KEY_MAX });
        }
        if fits::<BLOCK>(self.payload, self.n, elen) {
            if self.n % 16 == 0 && self.payload > 0xFFFF {
                return Err(Error::NoSpace);
            }
            self.stage(&e, elen);
            return Ok(PushOutcome::Buffered);
        }
        if self.n == 0 {
            return Err(Error::NoSpace);
        }
        match self.seal_current(device, compress) {
            Ok(()) => {},
            Err(x) => {
                return Err(x);
            },
        }
        if !fits::<BLOCK>(0, 0, elen) {
            return Err(Error::NoSpace);
        }
        let ghost mid = self@;
        proof {
            assert(mid.all() =~= old(self)@.all()) by {
                assert(mid.groups.drop_last() =~= old(self)@.groups);
            }
        }
        self.stage(&e, elen);
        assert(self@.cur =~= seq![stored(e@)]);
        Ok(PushOutcome::BlockSealed)
    }

    /// Seals the trailing partial block (if any) and returns the data
    /// blocks written: the data section is complete, and the
    /// range-tombstone section may follow it.
    ///
    /// # Errors
    ///
    /// [`Error::NoSpace`] when the table outgrows its block limit or its
    /// index, or [`Error::Device`] on I/O failure.
    pub fn seal_data<D: BlockDevice>(
        &mut self,
        device: &mut D,
        compress: Option<&mut CompressScratch<BLOCK>>,
    ) -> (r: Result<u64, Error<D::Error>>)
        requires
            old(self).wf(),
            D::BLOCK == BLOCK,
            compress matches Some(cs) ==> cs.wf(),
        ensures
            compress matches Some(cs) ==> final(cs).wf(),
            synced_outside(
                &*old(device),
                &*final(device),
                old(self)@.base + old(self)@.groups.len(),
                old(self)@.base + old(self)@.groups.len() + 1,
            ),
            old(self)@.cur.len() == 0 ==> {
                &&& r == Ok::<u64, Error<D::Error>>(old(self)@.groups.len() as u64)
                &&& *final(self) == *old(self)
                &&& *final(device) == *old(device)
            },
            old(self)@.cur.len() > 0 && !old(self)@.may_seal() ==> r == Err::<
                u64,
                Error<D::Error>,
            >(Error::NoSpace) && *final(device) == *old(device),
            old(self)@.cur.len() > 0 && old(self)@.may_seal() ==> {
                let id = (old(self)@.base + old(self)@.groups.len()) as u64;
                &&& final(device).content() == old(device).content().insert(
                    id,
                    final(device).content()[id],
                )
                &&& match r {
                    Ok(n) => {
                        &&& old(self)@.index_room(BLOCK as int)
                        &&& n == old(self)@.groups.len() + 1
                        &&& is_data_block(
                            final(device).content()[id],
                            old(self)@.cur,
                            BLOCK as int,
                        )
                        &&& final(device).content()[id] == data_image(
                            old(self)@.cur,
                            compress is Some,
                            BLOCK as int,
                        )
                        &&& final(self).wf()
                        &&& final(self)@ == (WriterV {
                            groups: old(self)@.groups.push(old(self)@.cur),
                            cur: Seq::empty(),
                            ..old(self)@
                        })
                    },
                    Err(Error::NoSpace) => !old(self)@.index_room(BLOCK as int),
                    Err(e) => e is Device,
                }
            },
    {
        if self.n > 0 {
            match self.seal_current(device, compress) {
                Ok(()) => {},
                Err(e) => {
                    return Err(e);
                },
            }
        }
        Ok(self.data_blocks)
    }
}

/// Every index entry takes 19 bytes or more.
pub proof fn lemma_index_len(groups: Seq<Seq<Rec>>, base: u64, n: int, block: int)
    requires
        0 <= n <= groups.len(),
        forall|b: int| 0 <= b < groups.len() ==> group_ok(#[trigger] groups[b], block),
    ensures
        index_bytes(groups, base, n).len() >= 19 * n,
    decreases n,
{
    if n > 0 {
        lemma_index_len(groups, base, n - 1, block);
        let g = groups[n - 1];
        assert(group_ok(g, block));
        assert(ent_ok(g[0]));
        lemma_idx_roundtrip(g[0].key, (base + n - 1) as u64, group_top(g), Seq::empty());
    }
}

/// Writes the bytes of one entry into `buf` at `at`.
fn encode_entry(buf: &mut [u8], at: usize, e: &SstEntry<'_>)
    requires
        ent_ok(stored(e@)),
        at + ent_len(stored(e@)) <= old(buf)@.len(),
    ensures
        final(buf)@ == spliced(old(buf)@, at as int, ent_bytes(stored(e@))),
        final(buf)@.len() == old(buf)@.len(),
{
    let ghost s = stored(e@);
    let ghost d = buf@;
    let ghost p = at as int;
    let room: usize = buf.len();
    assert(at + ent_len(s) <= room);
    let klen: usize = e.key.len();
    let vlen: usize = if e.tombstone {
        0
    } else {
        e.val.len()
    };
    let ttl: bool = !e.tombstone && e.expire_at != 0;
    let op: Op = if e.tombstone {
        Op::Delete
    } else if ttl {
        Op::PutTtl
    } else {
        Op::Put
    };
    let code: u8 = op.to_u8();
    let ghost b0 = le_bytes(klen as nat, 2);
    let ghost b1 = le_bytes(vlen as nat, 2);
    let ghost b2 = le_bytes(e.seq as nat, 8);
    let ghost b3 = le_bytes(code as nat, 1);
    proof {
        lemma_le_bytes_len(klen as nat, 2);
        lemma_le_bytes_len(vlen as nat, 2);
        lemma_le_bytes_len(e.seq as nat, 8);
        lemma_le_bytes_len(code as nat, 1);
        lemma_le_bytes_len(e.expire_at as nat, 8);
        lemma_splice_append(d, p, b0, b1);
        lemma_splice_append(d, p, b0 + b1, b2);
        lemma_splice_append(d, p, b0 + b1 + b2, b3);
        lemma_splice_append(d, p, b0 + b1 + b2 + b3, s.key);
        lemma_splice_append(d, p, b0 + b1 + b2 + b3 + s.key, s.val);
        if ttl {
            lemma_splice_append(
                d,
                p,
                b0 + b1 + b2 + b3 + s.key + s.val,
                le_bytes(e.expire_at as nat, 8),
            );
        }
        assert(b3 =~= seq![code]) by {
            reveal_with_fuel(le_bytes, 2);
        }
    }
    store_le(buf, at, klen as u64, 2);
    store_le(buf, at + 2, vlen as u64, 2);
    store_le(buf, at + 4, e.seq, 8);
    store_le(buf, at + 12, code as u64, 1);
    copy_into(buf, at + 13, e.key);
    if !e.tombstone {
        copy_into(buf, at + 13 + klen, e.val);
    }
    if ttl {
        store_le(buf, at + 13 + klen + vlen, e.expire_at, 8);
    }
    proof {
        reveal(ent_bytes);
        let all = b0 + b1 + b2 + b3 + s.key;
        if e.tombstone {
            assert(all =~= ent_bytes(s));
        } else if ttl {
            assert(all + s.val + le_bytes(e.expire_at as nat, 8) =~= ent_bytes(s));
        } else {
            assert(all + s.val =~= ent_bytes(s));
        }
    }
}

/// A group with one more entry that fits is a group.
pub proof fn lemma_group_step(cur: Seq<Rec>, e: Rec, block: int)
    requires
        cur.len() > 0 ==> group_ok(cur, block),
        ent_ok(e),
        entry_fits(ents_len(cur) as int, cur.len() as int, ent_len(e) as int, block),
        cur.len() % 16 == 0 ==> ents_len(cur) <= 0xFFFF,
    ensures
        group_ok(cur.push(e), block),
        ents_len(cur.push(e)) == ents_len(cur) + ent_len(e),
{
    let w = cur.push(e);
    assert(w.drop_last() =~= cur);
    lemma_restart_step(cur, e);
    assert forall|i: int| 0 <= i < w.len() implies ent_ok(#[trigger] w[i]) by {
        if i < cur.len() {
            assert(ent_ok(cur[i]));
        }
    }
    assert forall|r: int| 0 <= r < restart_count(w.len() as int) implies #[trigger] off_of(
        w,
        16 * r,
    ) <= 0xFFFF by {
        if r < restart_count(cur.len() as int) {
            assert(off_of(cur, 16 * r) <= 0xFFFF);
        }
    }
}

/// A shared prefix of groups has the same index bytes.
proof fn lemma_index_prefix(a: Seq<Seq<Rec>>, b: Seq<Seq<Rec>>, base: u64, n: int)
    requires
        0 <= n <= a.len(),
        n <= b.len(),
        forall|i: int| 0 <= i < n ==> #[trigger] a[i] == b[i],
    ensures
        index_bytes(a, base, n) == index_bytes(b, base, n),
    decreases n,
{
    if n > 0 {
        lemma_index_prefix(a, b, base, n - 1);
        assert(a[n - 1] == b[n - 1]);
    }
}

/// Restart offsets when one more entry is staged.
proof fn lemma_restart_step(cur: Seq<Rec>, e: Rec)
    ensures
        restart_count(cur.len() as int + 1) == restart_count(cur.len() as int) + (if cur.len() % 16
            == 0 {
            1int
        } else {
            0int
        }),
        cur.len() % 16 == 0 ==> 16 * restart_count(cur.len() as int) == cur.len(),
        off_of(cur.push(e), cur.len() as int) == ents_len(cur),
        forall|r: int|
            0 <= r < restart_count(cur.len() as int) ==> #[trigger] off_of(cur.push(e), 16 * r)
                == off_of(cur, 16 * r),
{
    let w = cur.push(e);
    assert(w.take(cur.len() as int) =~= cur);
    assert forall|r: int| 0 <= r < restart_count(cur.len() as int) implies #[trigger] off_of(
        w,
        16 * r,
    ) == off_of(cur, 16 * r) by {
        assert(w.take(16 * r) =~= cur.take(16 * r));
    }
}

// ---------------------------------------------------------------------
// Finishing a table.

/// The table of a writer whose data is sealed.
pub open spec fn run_of(v: WriterV, rgroups: Seq<Seq<RdelV>>, min_seq: u64) -> RunV {
    RunV { base: v.base, groups: v.groups, rgroups, k: v.k, min_seq }
}

/// The lesser of two sequence numbers.
pub open spec fn seq_min(a: u64, b: u64) -> u64 {
    if b < a {
        b
    } else {
        a
    }
}

/// The statistics of a finished table.
pub open spec fn finished_is<const KEY_MAX: usize>(
    f: FinishedTable<KEY_MAX>,
    v: WriterV,
    rdel_min_seq: u64,
) -> bool {
    let all = v.all();
    &&& f.data_blocks == v.groups.len()
    &&& f.entry_count == all.len()
    &&& f.max_seq == group_top(all)
    &&& f.min_seq == seq_min(group_low(all), rdel_min_seq)
    &&& f.first_key.wf()
    &&& f.last_key.wf()
    &&& f.first_key@ == (if all.len() == 0 {
        Seq::empty()
    } else {
        all[0].key
    })
    &&& f.last_key@ == (if all.len() == 0 {
        Seq::empty()
    } else {
        all.last().key
    })
}

impl<const BLOCK: usize, const BLOOM_BYTES: usize, const KEY_MAX: usize> TableWriter<
    BLOCK,
    BLOOM_BYTES,
    KEY_MAX,
> {
    /// Writes the bloom, index, and footer blocks behind the data section
    /// and `rdel_blocks` range-tombstone blocks, and flushes the device.
    /// Reports the table's shape for the manifest's
    /// [`TableRef`](crate::manifest::TableRef). `rdel_min_seq` is the lowest
    /// sequence of the range tombstones (`u64::MAX` without any).
    ///
    /// # Errors
    ///
    /// [`Error::NoSpace`] when the block ids overflow, or [`Error::Device`]
    /// on I/O failure.
    pub fn finish_meta<D: BlockDevice>(
        &mut self,
        device: &mut D,
        rdel_blocks: u32,
        rdel_min_seq: u64,
    ) -> (r: Result<FinishedTable<KEY_MAX>, Error<D::Error>>)
        requires
            old(self).wf(),
            D::BLOCK == BLOCK,
            old(self)@.cur.len() == 0,
        ensures
            r is Ok ==> final(device).durable() == final(device).content(),
            synced_outside(
                &*old(device),
                &*final(device),
                old(self)@.base + old(self)@.groups.len() + rdel_blocks,
                old(self)@.base + old(self)@.groups.len() + rdel_blocks + 3,
            ),
            ({
                let v = old(self)@;
                let at = v.base + v.groups.len() + rdel_blocks;
                let min = seq_min(group_low(v.all()), rdel_min_seq);
                if at + 2 > u64::MAX {
                    &&& r matches Err(e) && e == Error::<D::Error>::NoSpace
                    &&& *final(device) == *old(device)
                } else {
                    &&& same_outside(old(device).content(), final(device).content(), at, at + 3)
                    &&& match r {
                        Ok(f) => {
                            &&& finished_is(f, v, rdel_min_seq)
                            &&& f.data_blocks * 19 <= BLOCK
                            &&& forall|rg: Seq<Seq<RdelV>>|
                                rg.len() == rdel_blocks ==> (#[trigger] run_of(
                                    v,
                                    rg,
                                    min,
                                )).meta_on(
                                    final(device).content(),
                                    BLOCK as int,
                                    BLOOM_BYTES as int,
                                )
                        },
                        Err(e) => e is Device,
                    }
                }
            }),
    {
        broadcast use lemma_le_bytes_len;

        let ghost v = self@;
        let ghost at = v.base + v.groups.len() + rdel_blocks;
        let ghost c0 = device.content();
        let ghost all = v.all();
        assert(all =~= flat_recs(v.groups));
        proof {
            lemma_index_len(v.groups, v.base, v.groups.len() as int, BLOCK as int);
        }
        let bloom_id: u64 = match self.base.checked_add(self.data_blocks) {
            None => {
                return Err(Error::NoSpace);
            },
            Some(b) => match b.checked_add(rdel_blocks as u64) {
                None => {
                    return Err(Error::NoSpace);
                },
                Some(id) => id,
            },
        };
        if bloom_id > u64::MAX - 2 {
            return Err(Error::NoSpace);
        }
        let index_id: u64 = bloom_id + 1;
        let footer_id: u64 = bloom_id + 2;
        let min_seq: u64 = if rdel_min_seq < self.min_seq {
            rdel_min_seq
        } else {
            self.min_seq
        };
        let first_key: KeyBound<KEY_MAX> = self.first_key;
        let last_key: KeyBound<KEY_MAX> = self.last_key;
        // Bloom block: reuse the data staging buffer (it is free now).
        let ghost bl = self.bloom@;
        copy_into(&mut self.data, 0, &self.bloom);
        proof {
            reveal(spliced);
            assert(self.data@.take(BLOOM_BYTES as int) =~= bl);
        }
        match seal_meta_block(device, bloom_id, &mut self.data, BLOOM_BYTES) {
            Ok(()) => {},
            Err(e) => {
                return Err(e);
            },
        }
        let ghost c1 = device.content();
        // Index block.
        match seal_meta_block(device, index_id, &mut self.index, self.index_len) {
            Ok(()) => {},
            Err(e) => {
                return Err(e);
            },
        }
        let ghost c2 = device.content();
        // Footer block.
        let ghost foot = FootV {
            index_block: index_id,
            bloom_block: bloom_id,
            entry_count: all.len() as u64,
            k: v.k,
            rdel_blocks,
            min_seq,
        };
        let ghost d0 = self.data@;
        proof {
            let b0 = le_bytes(SSTABLE_MAGIC as nat, 8);
            let b1 = le_bytes(index_id as nat, 8);
            let b2 = le_bytes(bloom_id as nat, 8);
            let b3 = le_bytes(self.entry_count as nat, 8);
            let b4 = le_bytes(self.k as nat, 1);
            let b5 = le_bytes(rdel_blocks as nat, 4);
            let b6 = le_bytes(min_seq as nat, 8);
            lemma_le_bytes_len(SSTABLE_MAGIC as nat, 8);
            lemma_le_bytes_len(index_id as nat, 8);
            lemma_le_bytes_len(bloom_id as nat, 8);
            lemma_le_bytes_len(self.entry_count as nat, 8);
            lemma_le_bytes_len(self.k as nat, 1);
            lemma_le_bytes_len(rdel_blocks as nat, 4);
            lemma_le_bytes_len(min_seq as nat, 8);
            lemma_splice_append(d0, 0, b0, b1);
            lemma_splice_append(d0, 0, b0 + b1, b2);
            lemma_splice_append(d0, 0, b0 + b1 + b2, b3);
            lemma_splice_append(d0, 0, b0 + b1 + b2 + b3, b4);
            lemma_splice_append(d0, 0, b0 + b1 + b2 + b3 + b4, b5);
            lemma_splice_append(d0, 0, b0 + b1 + b2 + b3 + b4 + b5, b6);
            assert(b4 =~= seq![self.k]) by {
                reveal_with_fuel(le_bytes, 2);
            }
            reveal(foot_bytes);
            assert(b0 + b1 + b2 + b3 + b4 + b5 + b6 =~= foot_bytes(foot));
            assert(foot_bytes(foot).len() == FOOTER_LEN);
        }
        store_le(&mut self.data, 0, SSTABLE_MAGIC, 8);
        store_le(&mut self.data, 8, index_id, 8);
        store_le(&mut self.data, 16, bloom_id, 8);
        store_le(&mut self.data, 24, self.entry_count, 8);
        store_le(&mut self.data, 32, self.k as u64, 1);
        store_le(&mut self.data, 33, rdel_blocks as u64, 4);
        store_le(&mut self.data, 37, min_seq, 8);
        proof {
            reveal(spliced);
            assert(self.data@.take(FOOTER_LEN as int) =~= foot_bytes(foot));
        }
        match seal_meta_block(device, footer_id, &mut self.data, FOOTER_LEN) {
            Ok(()) => {},
            Err(e) => {
                return Err(e);
            },
        }
        let ghost c3 = device.content();
        // Table blocks are durable before the manifest commit makes them
        // visible.
        let ghost d3 = *device;
        let flushed = device.flush();
        proof {
            assert(synced_outside(&d3, &*device, 0, 0));
            lemma_synced_wider(&d3, &*device, 0, 0, at, at + 3);
            lemma_synced_on(&*old(device), &d3, &*device, at, at + 3);
        }
        match flushed {
            Ok(()) => {},
            Err(e) => {
                return Err(Error::Device(e));
            },
        }
        proof {
            assert(c3[bloom_id] == c1[bloom_id]);
            assert(c3[index_id] == c2[index_id]);
            assert forall|rg: Seq<Seq<RdelV>>| rg.len() == rdel_blocks implies (#[trigger] run_of(
                v,
                rg,
                min_seq,
            )).meta_on(c3, BLOCK as int, BLOOM_BYTES as int) by {
                let t = run_of(v, rg, min_seq);
                assert(t.recs() =~= all);
                assert(t.foot() =~= foot);
                assert(t.bloom_at() == bloom_id);
            }
        }
        Ok(
            FinishedTable {
                data_blocks: self.data_blocks,
                entry_count: self.entry_count,
                max_seq: self.max_seq,
                min_seq,
                first_key,
                last_key,
            },
        )
    }

    /// Seals the trailing partial block (if any), then writes the bloom,
    /// index, and footer blocks and flushes the device. Reports the table's
    /// shape for the manifest's [`TableRef`](crate::manifest::TableRef).
    ///
    /// `rdel_blocks` is the table's range-tombstone section length; the
    /// footer records it so readers can find the section. Its blocks sit
    /// between the data section and the bloom block.
    ///
    /// # Errors
    ///
    /// [`Error::NoSpace`] when the table outgrows its block limit, its
    /// index, or the block ids, or [`Error::Device`] on I/O failure.
    pub fn finish<D: BlockDevice>(
        &mut self,
        device: &mut D,
        compress: Option<&mut CompressScratch<BLOCK>>,
        rdel_blocks: u32,
    ) -> (r: Result<FinishedTable<KEY_MAX>, Error<D::Error>>)
        requires
            old(self).wf(),
            D::BLOCK == BLOCK,
            compress matches Some(cs) ==> cs.wf(),
        ensures
            compress matches Some(cs) ==> final(cs).wf(),
            finish_done(
                old(self)@,
                old(device).content(),
                final(device).content(),
                rdel_blocks,
                BLOCK as int,
                BLOOM_BYTES as int,
                match r {
                    Ok(_) => Ok(()),
                    Err(e) => Err(e),
                },
            ),
            r matches Ok(f) ==> finished_is(f, sealed_writer(old(self)@), u64::MAX)
                && f.data_blocks * 19 <= BLOCK,
            r is Ok && old(self)@.imaged(old(device).content(), compress is Some, BLOCK as int)
                ==> sealed_writer(old(self)@).imaged(
                final(device).content(),
                compress is Some,
                BLOCK as int,
            ),
            r is Ok ==> final(device).durable() == final(device).content(),
            synced_outside(
                &*old(device),
                &*final(device),
                old(self)@.base + old(self)@.groups.len(),
                sealed_writer(old(self)@).base + sealed_writer(old(self)@).groups.len()
                    + rdel_blocks + 3,
            ),
    {
        let ghost v0 = self@;
        let ghost c0 = device.content();
        let ghost on = compress is Some;
        proof {
            assert(v0.cur.len() > 0 ==> sealed_writer(v0).groups.drop_last() =~= v0.groups);
            assert(v0.all() =~= sealed_writer(v0).all());
            if v0.cur.len() == 0 {
                assert(v0 =~= sealed_writer(v0));
            }
        }
        match self.seal_data(device, compress) {
            Ok(_) => {},
            Err(e) => {
                return Err(e);
            },
        }
        let ghost c1 = device.content();
        let ghost v1 = self@;
        let r = self.finish_meta(device, rdel_blocks, u64::MAX);
        proof {
            let c2 = device.content();
            assert(v1 =~= sealed_writer(v0));
            let at = v1.base + v1.groups.len() + rdel_blocks;
            if r is Ok {
                assert forall|b: int| 0 <= b < v1.groups.len() && v0.on(c0, BLOCK as int) implies
                    is_data_block(
                    c2[(v1.base + b) as u64],
                    #[trigger] v1.groups[b],
                    BLOCK as int,
                ) by {
                    assert(c2[(v1.base + b) as u64] == c1[(v1.base + b) as u64]);
                    if b < v0.groups.len() {
                        assert(v1.groups[b] == v0.groups[b]);
                        assert(c1[(v1.base + b) as u64] == c0[(v1.base + b) as u64]);
                    }
                }
                assert forall|b: int|
                    0 <= b < v1.groups.len() && v0.imaged(c0, on, BLOCK as int) implies c2[(v1.base
                    + b) as u64] == data_image(#[trigger] v1.groups[b], on, BLOCK as int) by {
                    assert(c2[(v1.base + b) as u64] == c1[(v1.base + b) as u64]);
                    if b < v0.groups.len() {
                        assert(v1.groups[b] == v0.groups[b]);
                        assert(c1[(v1.base + b) as u64] == c0[(v1.base + b) as u64]);
                    }
                }
            }
            assert forall|id: u64|
                !(v0.base + v0.groups.len() <= id < at + 3) implies #[trigger] c0[id] == c2[id] by {
                assert(c1[id] == c0[id]);
                assert(c1[id] == c2[id]);
            }
        }
        r
    }
}

/// The writer with its staged block sealed.
pub open spec fn sealed_writer(v: WriterV) -> WriterV {
    WriterV { groups: v.blocks(), cur: Seq::empty(), ..v }
}

/// What finishing a table does: its blocks are on the device, or it fails
/// for want of blocks or on I/O. Only blocks behind the sealed ones change.
pub open spec fn finish_done<E>(
    v: WriterV,
    c0: Map<u64, Seq<u8>>,
    c1: Map<u64, Seq<u8>>,
    rdel_blocks: u32,
    block: int,
    bloom_bytes: int,
    r: Result<(), Error<E>>,
) -> bool {
    let w = sealed_writer(v);
    let at = w.base + w.groups.len() + rdel_blocks;
    let room = (v.cur.len() > 0 ==> v.may_seal() && v.index_room(block)) && at + 2 <= u64::MAX;
    &&& same_outside(c0, c1, v.base + v.groups.len(), at + 3)
    &&& match r {
        Ok(()) => {
            &&& room
            &&& v.on(c0, block) ==> w.on(c1, block)
            &&& forall|rg: Seq<Seq<RdelV>>|
                rg.len() == rdel_blocks ==> (#[trigger] run_of(w, rg, group_low(v.all()))).meta_on(
                    c1,
                    block,
                    bloom_bytes,
                )
        },
        Err(Error::NoSpace) => !room,
        Err(e) => e is Device,
    }
}

proof fn lemma_flat_bound(groups: Seq<Seq<Rec>>, block: int)
    requires
        forall|b: int| 0 <= b < groups.len() ==> group_ok(#[trigger] groups[b], block),
    ensures
        flat_recs(groups).len() <= MAX_ENTRIES_PER_BLOCK * groups.len(),
    decreases groups.len(),
{
    if groups.len() > 0 {
        let d = groups.drop_last();
        assert forall|b: int| 0 <= b < d.len() implies group_ok(#[trigger] d[b], block) by {
            assert(group_ok(groups[b], block));
        }
        lemma_flat_bound(d, block);
        assert(group_ok(groups[groups.len() - 1], block));
    }
}

/// The writer after one more entry, or the error that stops it.
pub open spec fn push_next<E>(v: WriterV, e: Rec, block: int, key_max: usize) -> Result<
    WriterV,
    Error<E>,
> {
    match push_plan::<E>(v, e, block, key_max) {
        PushPlan::Refuse(x) => Err(x),
        PushPlan::Seal(Some(x)) => Err(x),
        PushPlan::Seal(None) => Ok(
            WriterV { groups: v.groups.push(v.cur), cur: seq![stored(e)], ..v },
        ),
        PushPlan::Buffer => Ok(WriterV { cur: v.cur.push(stored(e)), ..v }),
    }
}

/// The writer after `es` more entries, or the error that stops it.
pub open spec fn push_all<E>(v: WriterV, es: Seq<Rec>, block: int, key_max: usize) -> Result<
    WriterV,
    Error<E>,
>
    decreases es.len(),
{
    if es.len() == 0 {
        Ok(v)
    } else {
        match push_next::<E>(v, es[0], block, key_max) {
            Err(x) => Err(x),
            Ok(w) => push_all::<E>(w, es.skip(1), block, key_max),
        }
    }
}

/// Pushing keeps base, probes and limit, and holds all entries.
pub proof fn law_push_all<E>(v: WriterV, es: Seq<Rec>, block: int, key_max: usize)
    ensures
        push_all::<E>(v, es, block, key_max) matches Ok(w) ==> {
            &&& w.base == v.base
            &&& w.k == v.k
            &&& w.limit == v.limit
            &&& w.all() == v.all() + stored_all(es)
            &&& v.groups.len() <= v.limit ==> w.groups.len() <= w.limit
        },
    decreases es.len(),
{
    if es.len() == 0 {
        assert(v.all() + stored_all(es) =~= v.all());
    } else {
        match push_next::<E>(v, es[0], block, key_max) {
            Err(_) => {},
            Ok(w) => {
                law_push_all::<E>(w, es.skip(1), block, key_max);
                assert(w.groups.drop_last() =~= v.groups || w.groups =~= v.groups);
                assert(w.all() =~= v.all().push(stored(es[0])));
                assert(stored_all(es) =~= seq![stored(es[0])] + stored_all(es.skip(1)));
                assert(v.all().push(stored(es[0])) + stored_all(es.skip(1)) =~= v.all()
                    + stored_all(es));
            },
        }
    }
}

/// The writer after pushing `es`, or the error that stops it.
pub open spec fn write_run<E>(
    base: u64,
    k: u8,
    limit: u64,
    es: Seq<Rec>,
    block: int,
    key_max: usize,
) -> Result<WriterV, Error<E>>
    decreases es.len(),
{
    if es.len() == 0 {
        Ok(
            WriterV {
                base,
                k,
                limit,
                groups: Seq::empty(),
                cur: Seq::empty(),
            },
        )
    } else {
        match write_run::<E>(base, k, limit, es.drop_last(), block, key_max) {
            Err(e) => Err(e),
            Ok(v) => push_next::<E>(v, es.last(), block, key_max),
        }
    }
}

/// The writer packs as the plan says: block for block, entry for entry.
pub proof fn law_plan_matches_writer<E>(
    base: u64,
    k: u8,
    limit: u64,
    es: Seq<Rec>,
    block: int,
    key_max: usize,
)
    ensures
        write_run::<E>(base, k, limit, es, block, key_max) matches Ok(v) ==> {
            &&& v.blocks() == pack(es, block)
            &&& v.all() == stored_all(es)
            &&& v.cur.len() == 0 ==> es.len() == 0
            &&& v.base == base
            &&& v.k == k
            &&& v.limit == limit
            &&& pack_check::<E>(es, block) is Ok
        },
    decreases es.len(),
{
    if es.len() > 0 {
        law_plan_matches_writer::<E>(base, k, limit, es.drop_last(), block, key_max);
        match write_run::<E>(base, k, limit, es.drop_last(), block, key_max) {
            Err(_) => {},
            Ok(v) => {
                let e = stored(es.last());
                let gs = v.blocks();
                if v.cur.len() > 0 {
                    assert(gs.last() == v.cur);
                }
                match push_plan::<E>(v, es.last(), block, key_max) {
                    PushPlan::Buffer => {
                        let w = WriterV { cur: v.cur.push(e), ..v };
                        if v.cur.len() == 0 {
                            assert(es.drop_last().len() == 0);
                            assert(w.cur =~= seq![e]);
                            assert(gs =~= v.groups);
                            assert(pack(es.drop_last(), block) =~= Seq::<Seq<Rec>>::empty());
                            assert(w.blocks() =~= packed_with(gs, e, block));
                        } else {
                            assert(w.blocks() =~= packed_with(gs, e, block));
                        }
                    },
                    PushPlan::Seal(None) => {
                        let w = WriterV {
                            groups: v.groups.push(v.cur),
                            cur: seq![e],
                            ..v
                        };
                        assert(w.blocks() =~= packed_with(gs, e, block));
                    },
                    _ => {},
                }
                law_pack_keeps_entries(es, block);
                match write_run::<E>(base, k, limit, es, block, key_max) {
                    Ok(w) => {
                        assert(w.blocks().drop_last() =~= w.groups);
                        assert(w.all() =~= flat_recs(w.blocks()));
                    },
                    Err(_) => {},
                }
            },
        }
    } else {
        assert(stored_all(es) =~= Seq::<Rec>::empty());
    }
}

/// The first error of a prefix stops the whole.
pub proof fn lemma_write_run_prefix<E>(
    base: u64,
    k: u8,
    limit: u64,
    es: Seq<Rec>,
    block: int,
    key_max: usize,
    n: int,
)
    requires
        0 <= n <= es.len(),
    ensures
        write_run::<E>(base, k, limit, es.take(n), block, key_max) matches Err(e) ==> write_run::<E>(
            base,
            k,
            limit,
            es,
            block,
            key_max,
        ) == Err::<WriterV, Error<E>>(e),
    decreases es.len() - n,
{
    if n < es.len() {
        lemma_write_run_prefix::<E>(base, k, limit, es, block, key_max, n + 1);
        assert(es.take(n + 1).drop_last() =~= es.take(n));
    } else {
        assert(es.take(n) =~= es);
    }
}

/// Entries pack into no fewer blocks than the first of them do.
proof fn lemma_pack_prefix_len(es: Seq<Rec>, block: int, n: int)
    requires
        0 <= n <= es.len(),
    ensures
        pack(es.take(n), block).len() <= pack(es, block).len(),
    decreases es.len() - n,
{
    if n < es.len() {
        lemma_pack_prefix_len(es, block, n + 1);
        assert(es.take(n + 1).drop_last() =~= es.take(n));
    } else {
        assert(es.take(n) =~= es);
    }
}

/// What writing a whole table does. Only the table's blocks change, whatever
/// came of it.
pub open spec fn write_done<E>(
    base: u64,
    k: u8,
    es: Seq<Rec>,
    key_max: usize,
    c0: Map<u64, Seq<u8>>,
    c1: Map<u64, Seq<u8>>,
    rdel_blocks: u32,
    block: int,
    bloom_bytes: int,
    r: Result<u64, Error<E>>,
) -> bool {
    &&& same_outside(c0, c1, base as int, base + pack(es, block).len() + rdel_blocks + 3)
    &&& match write_run::<E>(base, k, u64::MAX, es, block, key_max) {
        Err(x) => r matches Err(e) && (e == x || e is Device),
        Ok(v) => {
            let w = sealed_writer(v);
            let at = base + w.groups.len() + rdel_blocks;
            let room = (v.cur.len() > 0 ==> v.may_seal() && v.index_room(block)) && at + 2
                <= u64::MAX;
            match r {
                Ok(n) => {
                    &&& room
                    &&& n == pack(es, block).len() + 3
                    &&& w.groups == pack(es, block)
                    &&& w.on(c1, block)
                    &&& forall|b: int|
                        0 <= b < w.groups.len() ==> group_ok(#[trigger] w.groups[b], block)
                    &&& index_bytes(w.groups, base, w.groups.len() as int).len() <= block - 4
                    &&& forall|rg: Seq<Seq<RdelV>>|
                        rg.len() == rdel_blocks ==> (#[trigger] run_of(
                            w,
                            rg,
                            group_low(stored_all(es)),
                        )).meta_on(c1, block, bloom_bytes)
                },
                Err(Error::NoSpace) => !room,
                Err(e) => e is Device,
            }
        },
    }
}

/// Streams the table: the one-shot form of [`TableWriter`].
///
/// Entries must arrive in key-ascending order (the same order
/// [`plan_table`] plans); `base` is a pre-allocated run of
/// `plan.data_blocks + 3` blocks plus the range-tombstone section. Returns
/// the blocks written.
///
/// The device is flushed at the end, so the table is durable before the
/// manifest commit that makes it visible.
///
/// `compress` is the caller's compression scratch (`None` = store all data
/// blocks raw); see [`TableWriter::push`].
///
/// # Errors
///
/// [`Error::KeyTooLarge`] / [`Error::ValueTooLarge`] for oversize entries,
/// [`Error::NoSpace`] when the table outgrows its pre-allocated run or the
/// index would overflow one block, or [`Error::Device`] on I/O failure.
pub fn write_table<
    D: BlockDevice,
    const BLOCK: usize,
    const BLOOM_BYTES: usize,
    const KEY_MAX: usize,
>(
    device: &mut D,
    base: u64,
    k: u8,
    entries: &[SstEntry<'_>],
    compress: Option<&mut CompressScratch<BLOCK>>,
    rdel_blocks: u32,
) -> (r: Result<u64, Error<D::Error>>)
    requires
        D::BLOCK == BLOCK,
        TableWriter::<BLOCK, BLOOM_BYTES, KEY_MAX>::shape_ok(),
        compress matches Some(cs) ==> cs.wf(),
    ensures
        compress matches Some(cs) ==> final(cs).wf(),
        r is Ok ==> final(device).durable() == final(device).content(),
        synced_outside(
            &*old(device),
            &*final(device),
            base as int,
            base + pack(entry_views(entries@), BLOCK as int).len() + rdel_blocks + 3,
        ),
        r is Ok ==> forall|b: int|
            0 <= b < pack(entry_views(entries@), BLOCK as int).len() ==> final(device).content()[(base
                + b) as u64] == data_image(
                #[trigger] pack(entry_views(entries@), BLOCK as int)[b],
                compress is Some,
                BLOCK as int,
            ),
        write_done(
            base,
            k,
            entry_views(entries@),
            KEY_MAX,
            old(device).content(),
            final(device).content(),
            rdel_blocks,
            BLOCK as int,
            BLOOM_BYTES as int,
            r,
        ),
{
    match compress {
        Some(cs) => write_entries::<D, BLOCK, BLOOM_BYTES, KEY_MAX>(
            device,
            base,
            k,
            entries,
            cs,
            true,
            rdel_blocks,
        ),
        None => {
            let mut cs: CompressScratch<BLOCK> = CompressScratch::new();
            write_entries::<D, BLOCK, BLOOM_BYTES, KEY_MAX>(
                device,
                base,
                k,
                entries,
                &mut cs,
                false,
                rdel_blocks,
            )
        },
    }
}

/// Pushes every entry and finishes; compresses where `on` says so.
fn write_entries<
    D: BlockDevice,
    const BLOCK: usize,
    const BLOOM_BYTES: usize,
    const KEY_MAX: usize,
>(
    device: &mut D,
    base: u64,
    k: u8,
    entries: &[SstEntry<'_>],
    cs: &mut CompressScratch<BLOCK>,
    on: bool,
    rdel_blocks: u32,
) -> (r: Result<u64, Error<D::Error>>)
    requires
        D::BLOCK == BLOCK,
        TableWriter::<BLOCK, BLOOM_BYTES, KEY_MAX>::shape_ok(),
        old(cs).wf(),
    ensures
        final(cs).wf(),
        r is Ok ==> final(device).durable() == final(device).content(),
        synced_outside(
            &*old(device),
            &*final(device),
            base as int,
            base + pack(entry_views(entries@), BLOCK as int).len() + rdel_blocks + 3,
        ),
        r is Ok ==> forall|b: int|
            0 <= b < pack(entry_views(entries@), BLOCK as int).len() ==> final(device).content()[(base
                + b) as u64] == data_image(
                #[trigger] pack(entry_views(entries@), BLOCK as int)[b],
                on,
                BLOCK as int,
            ),
        write_done(
            base,
            k,
            entry_views(entries@),
            KEY_MAX,
            old(device).content(),
            final(device).content(),
            rdel_blocks,
            BLOCK as int,
            BLOOM_BYTES as int,
            r,
        ),
{
    let total: usize = entries.len();
    let ghost es = entry_views(entries@);
    let ghost block = BLOCK as int;
    let ghost c0 = device.content();
    let ghost end = base + pack(es, block).len() + rdel_blocks + 3;
    let mut w: TableWriter<BLOCK, BLOOM_BYTES, KEY_MAX> = TableWriter::new(base, k);
    let mut i: usize = 0;
    assert(es.take(0) =~= Seq::<Rec>::empty());
    while i < total
        invariant
            D::BLOCK == BLOCK,
            block == BLOCK,
            total == entries@.len(),
            es == entry_views(entries@),
            i <= total,
            cs.wf(),
            w.wf(),
            write_run::<D::Error>(base, k, u64::MAX, es.take(i as int), block, KEY_MAX) == Ok::<
                WriterV,
                Error<D::Error>,
            >(w@),
            w@.on(device.content(), block),
            w@.imaged(device.content(), on, block),
            end == base + pack(es, block).len() + rdel_blocks + 3,
            c0 == old(device).content(),
            same_outside(c0, device.content(), base as int, end),
            synced_outside(&*old(device), &*device, base as int, end),
        decreases total - i,
    {
        let e: SstEntry<'_> = entries[i];
        let ghost v0 = w@;
        let ghost c1 = device.content();
        let ghost d1 = *device;
        proof {
            lemma_pack_prefix_len(es, block, i as int);
            assert(es.take(i + 1).drop_last() =~= es.take(i as int));
            assert(es.take(i + 1).last() == e@);
            law_plan_matches_writer::<D::Error>(base, k, u64::MAX, es.take(i as int), block, KEY_MAX);
            lemma_write_run_prefix::<D::Error>(base, k, u64::MAX, es, block, KEY_MAX, i + 1);
            assert(v0.all().len() == i);
        }
        let pushed: Result<PushOutcome, Error<D::Error>> = if on {
            w.push(device, e, Some(&mut *cs))
        } else {
            w.push(device, e, None)
        };
        proof {
            let at = base + v0.groups.len();
            if v0.cur.len() > 0 {
                assert(v0.blocks().len() == v0.groups.len() + 1);
                lemma_synced_wider(&d1, &*device, at, at + 1, base as int, end);
            }
            lemma_synced_on(&*old(device), &d1, &*device, base as int, end);
        }
        match pushed {
            Ok(_) => {
                proof {
                    lemma_on_step(v0, w@, c1, device.content(), block);
                    assert forall|b: int| 0 <= b < w@.groups.len() implies device.content()[(base
                        + b) as u64] == data_image(#[trigger] w@.groups[b], on, block) by {
                        if b < v0.groups.len() {
                            assert(w@.groups[b] == v0.groups[b]);
                            assert(c1[(base + b) as u64] == data_image(v0.groups[b], on, block));
                        }
                    }
                }
            },
            Err(x) => {
                return Err(x);
            },
        }
        i = i + 1;
    }
    proof {
        assert(es.take(total as int) =~= es);
        law_plan_matches_writer::<D::Error>(base, k, u64::MAX, es, block, KEY_MAX);
    }
    let ghost v = w@;
    let ghost d2 = *device;
    proof {
        w.lemma_wf();
    }
    let done: Result<FinishedTable<KEY_MAX>, Error<D::Error>> = if on {
        w.finish(device, Some(&mut *cs), rdel_blocks)
    } else {
        w.finish(device, None, rdel_blocks)
    };
    proof {
        let at = base + v.groups.len();
        lemma_synced_wider(&d2, &*device, at, end, base as int, end);
        lemma_synced_on(&*old(device), &d2, &*device, base as int, end);
    }
    match done {
        Err(e) => Err(e),
        Ok(f) => {
            proof {
                law_pack_keeps_entries(es, block);
                let gs = sealed_writer(v).groups;
                let n = v.groups.len() as int;
                if v.cur.len() > 0 {
                    assert(gs == v.groups.push(v.cur));
                    assert(group_ok(gs[n], block));
                    lemma_index_same(v.groups, gs, base, n);
                    let g = v.cur;
                    assert(ent_ok(g[0]));
                    lemma_idx_roundtrip(g[0].key, (base + n) as u64, group_top(g), Seq::empty());
                } else {
                    assert(gs == v.groups);
                }
            }
            Ok(f.data_blocks + 3)
        },
    }
}

/// The index of the first `n` blocks depends on those alone.
proof fn lemma_index_same(a: Seq<Seq<Rec>>, b: Seq<Seq<Rec>>, base: u64, n: int)
    requires
        0 <= n <= a.len(),
        n <= b.len(),
        forall|i: int| 0 <= i < n ==> #[trigger] a[i] == b[i],
    ensures
        index_bytes(b, base, n) == index_bytes(a, base, n),
    decreases n,
{
    if n > 0 {
        lemma_index_same(a, b, base, n - 1);
        assert(a[n - 1] == b[n - 1]);
    }
}

/// A table reads back what was written: after a whole table of sorted
/// entries was written, behind it room for a range-tombstone section, its
/// footer names an intact table whose entries are the ones written, which is
/// what a lookup goes by.
pub proof fn law_written_table_reads_back<E>(
    base: u64,
    k: u8,
    es: Seq<Rec>,
    key_max: usize,
    c0: Map<u64, Seq<u8>>,
    c1: Map<u64, Seq<u8>>,
    rdel_blocks: u32,
    block: int,
    bloom_bytes: int,
    n: u64,
)
    requires
        k >= 1,
        block >= FOOTER_LEN + 4,
        1 <= bloom_bytes <= block - 4,
        bloom_bytes * 8 <= u64::MAX,
        es.len() <= u64::MAX,
        key_sorted(es),
        runs_newest_first(es),
        write_done::<E>(base, k, es, key_max, c0, c1, rdel_blocks, block, bloom_bytes, Ok(n)),
    ensures
        base + n + rdel_blocks - 1 <= u64::MAX,
        ({
            let f = foot_of(c1[(base + n + rdel_blocks - 1) as u64]);
            &&& f is Some
            &&& f->0.k == k
            &&& stored_wf(c1, f->0, block, bloom_bytes)
            &&& stored_recs(c1, f->0.index_block) == stored_all(es)
        }),
{
    let v = write_run::<E>(base, k, u64::MAX, es, block, key_max)->Ok_0;
    let w = sealed_writer(v);
    let rg = Seq::new(rdel_blocks as nat, |i: int| Seq::<RdelV>::empty());
    let run = run_of(w, rg, group_low(stored_all(es)));
    law_plan_matches_writer::<E>(base, k, u64::MAX, es, block, key_max);
    law_pack_keeps_entries(es, block);
    assert(run.meta_on(c1, block, bloom_bytes));
    assert(run.recs() == stored_all(es));
    assert(key_sorted(stored_all(es)));
    assert(runs_newest_first(stored_all(es))) by {
        assert forall|i: int, j: int|
            #![trigger stored_all(es)[i], stored_all(es)[j]]
            0 <= i < j < es.len() && stored_all(es)[i].key
                == stored_all(es)[j].key implies stored_all(es)[i].seq > stored_all(es)[j].seq by {
            assert(es[i].key == es[j].key);
        }
    }
    assert forall|b: int| 0 <= b < run.groups.len() implies is_data_block(
        c1[(run.base + b) as u64],
        #[trigger] run.groups[b],
        block,
    ) by {
        assert(is_data_block(c1[(w.base + b) as u64], w.groups[b], block));
    }
    law_table_reads_back(run, c1, block, bloom_bytes);
}

/// One more sealed block keeps the blocks the images of their entries.
pub proof fn lemma_imaged_step(
    a: WriterV,
    b: WriterV,
    c0: Map<u64, Seq<u8>>,
    c1: Map<u64, Seq<u8>>,
    block: int,
)
    requires
        a.imaged(c0, true, block),
        b.base == a.base,
        ({
            let n = a.groups.len();
            let id = (a.base + n) as u64;
            ||| b.groups == a.groups && c1 == c0
            ||| {
                &&& b.groups == a.groups.push(a.cur)
                &&& a.base + n <= u64::MAX
                &&& c1 == c0.insert(id, c1[id])
                &&& c1[id] == data_image(a.cur, true, block)
            }
        }),
    ensures
        b.imaged(c1, true, block),
{
    assert forall|g: int| 0 <= g < b.groups.len() implies c1[(b.base + g) as u64] == data_image(
        #[trigger] b.groups[g],
        true,
        block,
    ) by {
        if g < a.groups.len() {
            assert(b.groups[g] == a.groups[g]);
            assert(c0[(a.base + g) as u64] == data_image(a.groups[g], true, block));
        }
    }
}

/// Sealed blocks stay on the device over a push.
pub proof fn lemma_on_step(
    v0: WriterV,
    v1: WriterV,
    c0: Map<u64, Seq<u8>>,
    c1: Map<u64, Seq<u8>>,
    block: int,
)
    requires
        v0.on(c0, block),
        v1.base == v0.base,
        v0.base + v0.groups.len() <= u64::MAX + 1,
        (v1.groups == v0.groups && c1 == c0) || ({
            let id = (v0.base + v0.groups.len()) as u64;
            &&& v0.base + v0.groups.len() <= u64::MAX
            &&& v1.groups == v0.groups.push(v0.cur)
            &&& c1 == c0.insert(id, c1[id])
            &&& is_data_block(c1[id], v0.cur, block)
        }),
    ensures
        v1.on(c1, block),
{
    assert forall|b: int| 0 <= b < v1.groups.len() implies is_data_block(
        c1[(v1.base + b) as u64],
        #[trigger] v1.groups[b],
        block,
    ) by {
        if b < v0.groups.len() {
            assert(v1.groups[b] == v0.groups[b]);
            assert(is_data_block(c0[(v0.base + b) as u64], v0.groups[b], block));
        }
    }
}

} // verus!

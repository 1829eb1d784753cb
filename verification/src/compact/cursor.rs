//! Read cursors: one table's data entries in order, block by block.

use vstd::prelude::*;

use crate::bytes::{copy_into, spliced};
use crate::device::{same_blocks, BlockDevice};
use crate::error::Error;
use crate::manifest::{data_blocks_of, TableRef};
use crate::manifest_format::TabV;
use crate::memtable::Rec;
use crate::sstable::block::{
    check_block_crc, data_entries_end, inflate_data_block, parse_data_entry,
};
use crate::sstable::format::{
    body_of, crc_ok, ent_parse, entries_end, entries_in, group_ok, is_data_block, law_body_entries,
    law_data_block_reads_back, lemma_ent_parse_bound, logical_of, payload_of,
};
use crate::sstable::table::{group_start, lemma_flat_at, RunV};
use crate::wal::{all_zero, all_zeros};

verus! {

/// Why a table's entries cannot be read on.
pub enum Fault {
    /// The block does not verify or parse.
    Corrupt(u64),
    /// A key of this many bytes exceeds the limit.
    Key(nat),
    /// A value of this many bytes exceeds the limit.
    Val(nat),
}

/// The error for a fault.
pub open spec fn fault_error<E>(f: Fault, key_max: usize, val_max: usize) -> Error<E> {
    match f {
        Fault::Corrupt(id) => Error::CorruptBlock { id },
        Fault::Key(n) => Error::KeyTooLarge { len: n as usize, max: key_max },
        Fault::Val(n) => Error::ValueTooLarge { len: n as usize, max: val_max },
    }
}

/// The stream gives `n` entries and then fails with `e`.
pub open spec fn stream_fails<E>(
    s: StreamV,
    n: nat,
    e: Error<E>,
    key_max: usize,
    val_max: usize,
) -> bool {
    &&& s.recs.len() == n
    &&& s.fault matches Some(f)
    &&& e == fault_error::<E>(f, key_max, val_max)
}

/// What reading a table on yields: entries, then the end or a fault.
#[verifier::ext_equal]
pub struct StreamV {
    pub recs: Seq<Rec>,
    pub fault: Option<Fault>,
}

/// An entry before a stream.
pub open spec fn before(e: Rec, s: StreamV) -> StreamV {
    StreamV { recs: seq![e] + s.recs, fault: s.fault }
}

/// A stream continued by another where it ends without a fault.
pub open spec fn joined(a: StreamV, b: StreamV) -> StreamV {
    if a.fault is Some {
        a
    } else {
        StreamV { recs: a.recs + b.recs, fault: b.fault }
    }
}

/// Nothing but a fault.
pub open spec fn failed(f: Fault) -> StreamV {
    StreamV { recs: Seq::empty(), fault: Some(f) }
}

/// Nothing.
pub open spec fn ended() -> StreamV {
    StreamV { recs: Seq::empty(), fault: None }
}

/// The entries in `s`, part of block `id`: they end at zero padding.
pub open spec fn block_stream(s: Seq<u8>, id: u64, key_max: usize, val_max: usize) -> StreamV
    decreases s.len(),
{
    match ent_parse(s) {
        None => if all_zeros(s) {
            ended()
        } else {
            failed(Fault::Corrupt(id))
        },
        Some((e, n)) => if n == 0 || n > s.len() {
            failed(Fault::Corrupt(id))
        } else if e.key.len() > key_max {
            failed(Fault::Key(e.key.len()))
        } else if e.val.len() > val_max {
            failed(Fault::Val(e.val.len()))
        } else {
            before(e, block_stream(s.skip(n as int), id, key_max, val_max))
        },
    }
}

/// The entry bytes of a data block; `None` when it does not verify or holds
/// none.
pub open spec fn entry_area(b: Seq<u8>) -> Option<Seq<u8>> {
    match logical_of(b) {
        None => None,
        Some(body) => match entries_end(body) {
            None => None,
            Some(end) => if crc_ok(b) && end > 0 {
                Some(body.take(end))
            } else {
                None
            },
        },
    }
}

/// The entries of the data blocks from index `idx` on of a table whose `n`
/// data blocks start at `first`.
pub open spec fn data_stream(
    c: Map<u64, Seq<u8>>,
    first: u64,
    n: u64,
    key_max: usize,
    val_max: usize,
    idx: int,
) -> StreamV
    decreases n - idx,
{
    let id = first + idx;
    if idx >= n || idx < 0 {
        ended()
    } else if id > u64::MAX {
        failed(Fault::Corrupt(first))
    } else {
        match entry_area(c[id as u64]) {
            None => failed(Fault::Corrupt(id as u64)),
            Some(s) => {
                let b = block_stream(s, id as u64, key_max, val_max);
                if b.recs.len() == 0 && b.fault is None {
                    failed(Fault::Corrupt(id as u64))
                } else {
                    joined(b, data_stream(c, first, n, key_max, val_max, idx + 1))
                }
            },
        }
    }
}

/// The entries of a table.
pub open spec fn table_stream(
    c: Map<u64, Seq<u8>>,
    t: TabV,
    key_max: usize,
    val_max: usize,
) -> StreamV {
    match data_blocks_of(t) {
        None => failed(Fault::Corrupt(t.first_block)),
        Some(n) => data_stream(c, t.first_block, n, key_max, val_max, 0),
    }
}

/// Devices that agree on the table's data blocks hold the same entries.
pub proof fn lemma_same_stream(
    c0: Map<u64, Seq<u8>>,
    c1: Map<u64, Seq<u8>>,
    first: u64,
    n: u64,
    key_max: usize,
    val_max: usize,
    idx: int,
)
    requires
        same_blocks(c0, c1, first as int, first + n),
    ensures
        data_stream(c0, first, n, key_max, val_max, idx) == data_stream(
            c1,
            first,
            n,
            key_max,
            val_max,
            idx,
        ),
    decreases n - idx,
{
    if 0 <= idx < n {
        lemma_same_stream(c0, c1, first, n, key_max, val_max, idx + 1);
        if first + idx <= u64::MAX {
            let id = (first + idx) as u64;
            assert(c0[id] == c1[id]);
        }
    }
}

/// Every entry of a block stream keeps within the limits.
pub proof fn lemma_block_stream_bounds(s: Seq<u8>, id: u64, key_max: usize, val_max: usize)
    ensures
        forall|i: int|
            0 <= i < block_stream(s, id, key_max, val_max).recs.len() ==> rec_within(
                #[trigger] block_stream(s, id, key_max, val_max).recs[i],
                key_max,
                val_max,
            ),
    decreases s.len(),
{
    match ent_parse(s) {
        None => {},
        Some((e, n)) => {
            lemma_ent_parse_bound(s);
            if 0 < n <= s.len() {
                let rest = block_stream(s.skip(n as int), id, key_max, val_max);
                lemma_block_stream_bounds(s.skip(n as int), id, key_max, val_max);
                let all = block_stream(s, id, key_max, val_max);
                assert forall|i: int| 0 <= i < all.recs.len() implies rec_within(
                    #[trigger] all.recs[i],
                    key_max,
                    val_max,
                ) by {
                    if i > 0 {
                        assert(all.recs[i] == rest.recs[i - 1]);
                    }
                }
            }
        },
    }
}

/// An entry that a table of these limits can hold.
pub open spec fn rec_within(e: Rec, key_max: usize, val_max: usize) -> bool {
    &&& 1 <= e.key.len() <= key_max
    &&& e.val.len() <= val_max
    &&& !e.range_del
}

/// Every entry of a table keeps within the limits.
pub proof fn lemma_data_stream_bounds(
    c: Map<u64, Seq<u8>>,
    first: u64,
    n: u64,
    key_max: usize,
    val_max: usize,
    idx: int,
)
    ensures
        forall|i: int|
            0 <= i < data_stream(c, first, n, key_max, val_max, idx).recs.len() ==> rec_within(
                #[trigger] data_stream(c, first, n, key_max, val_max, idx).recs[i],
                key_max,
                val_max,
            ),
    decreases n - idx,
{
    let all = data_stream(c, first, n, key_max, val_max, idx);
    if 0 <= idx < n && first + idx <= u64::MAX {
        let id = (first + idx) as u64;
        match entry_area(c[id]) {
            None => {},
            Some(s) => {
                let b = block_stream(s, id, key_max, val_max);
                let rest = data_stream(c, first, n, key_max, val_max, idx + 1);
                lemma_block_stream_bounds(s, id, key_max, val_max);
                lemma_data_stream_bounds(c, first, n, key_max, val_max, idx + 1);
                assert forall|i: int| 0 <= i < all.recs.len() implies rec_within(
                    #[trigger] all.recs[i],
                    key_max,
                    val_max,
                ) by {
                    if i < b.recs.len() {
                        assert(all.recs[i] == b.recs[i]);
                    } else {
                        assert(all.recs[i] == rest.recs[i - b.recs.len()]);
                    }
                }
            },
        }
    }
}

/// Entries that parse and keep within the limits are streamed.
proof fn lemma_entries_stream(s: Seq<u8>, id: u64, key_max: usize, val_max: usize)
    requires
        entries_in(s) matches Some(es) && recs_within(es, key_max, val_max),
    ensures
        block_stream(s, id, key_max, val_max) == (StreamV {
            recs: entries_in(s)->0,
            fault: None,
        }),
    decreases s.len(),
{
    let es = entries_in(s)->0;
    match ent_parse(s) {
        None => {},
        Some((e, n)) => {
            let rest = entries_in(s.skip(n as int))->0;
            assert(es == seq![e] + rest);
            assert forall|i: int| 0 <= i < rest.len() implies rec_within(
                #[trigger] rest[i],
                key_max,
                val_max,
            ) by {
                assert(es[i + 1] == rest[i]);
            }
            assert(es[0] == e);
            lemma_entries_stream(s.skip(n as int), id, key_max, val_max);
        },
    }
}

/// All entries keep within the limits.
pub open spec fn recs_within(es: Seq<Rec>, key_max: usize, val_max: usize) -> bool {
    forall|i: int| 0 <= i < es.len() ==> rec_within(#[trigger] es[i], key_max, val_max)
}

pub proof fn lemma_run_stream(
    t: RunV,
    c: Map<u64, Seq<u8>>,
    block: int,
    bloom_bytes: int,
    key_max: usize,
    val_max: usize,
    idx: int,
)
    requires
        t.wf(block, bloom_bytes),
        t.data_on(c, block),
        recs_within(t.recs(), key_max, val_max),
        0 <= idx <= t.groups.len(),
    ensures
        data_stream(c, t.base, t.groups.len() as u64, key_max, val_max, idx) == (StreamV {
            recs: t.recs().skip(group_start(t.groups, idx)),
            fault: None,
        }),
    decreases t.groups.len() - idx,
{
    let all = t.recs();
    let n = t.groups.len() as u64;
    if idx == t.groups.len() {
        assert(t.groups.take(idx) =~= t.groups);
        assert(all.skip(group_start(t.groups, idx)) =~= Seq::<Rec>::empty());
    } else {
        lemma_run_stream(t, c, block, bloom_bytes, key_max, val_max, idx + 1);
        let es = t.groups[idx];
        let id = (t.base + idx) as u64;
        assert(group_ok(es, block));
        assert(is_data_block(c[id], es, block));
        law_data_block_reads_back(c[id], es, block);
        law_body_entries(es, block);
        let body = body_of(es, block - 4);
        let s = body.take(entries_end(body)->0);
        assert forall|i: int| 0 <= i < es.len() implies rec_within(
            #[trigger] es[i],
            key_max,
            val_max,
        ) by {
            lemma_flat_at(t.groups, idx, i);
            assert(rec_within(all[group_start(t.groups, idx) + i], key_max, val_max));
        }
        lemma_entries_stream(s, id, key_max, val_max);
        assert(s.len() > 0) by {
            if s.len() == 0 {
                assert(ent_parse(s) is None);
            }
        }
        lemma_flat_at(t.groups, idx, 0);
        let g = group_start(t.groups, idx);
        assert(all.skip(g) =~= es + all.skip(g + es.len())) by {
            assert forall|i: int| 0 <= i < es.len() implies all[g + i] == #[trigger] es[i] by {
                lemma_flat_at(t.groups, idx, i);
            }
        }
    }
}

/// A written table streams its entries.
pub proof fn law_table_streams(
    t: RunV,
    c: Map<u64, Seq<u8>>,
    block: int,
    bloom_bytes: int,
    key_max: usize,
    val_max: usize,
)
    requires
        t.wf(block, bloom_bytes),
        t.data_on(c, block),
        recs_within(t.recs(), key_max, val_max),
    ensures
        data_stream(c, t.base, t.groups.len() as u64, key_max, val_max, 0) == (StreamV {
            recs: t.recs(),
            fault: None,
        }),
{
    lemma_run_stream(t, c, block, bloom_bytes, key_max, val_max, 0);
    assert(t.groups.take(0) =~= Seq::<Seq<Rec>>::empty());
    assert(t.recs().skip(0) =~= t.recs());
}

/// Read cursor over one input table's data blocks: the current block plus
/// the parsed head entry. Owns its logical block buffer so the k-way
/// merge never allocates; the physical read scratch is shared, since the
/// physical bytes are dead once inflated.
#[derive(Clone, Copy)]
pub struct Cursor<const BLOCK: usize, const KEY_MAX: usize, const VAL_MAX: usize> {
    first_block: u64,
    data_blocks: u64,
    block_idx: u64,
    block_id: u64,
    // Logical block: inflated here when the compression flag is set,
    // copied here from the physical read when clear. Every parser below
    // reads from here, so decompression is transparent.
    block: [u8; BLOCK],
    // Start of the restart trailer: entries end at the first zero padding
    // before this offset.
    rstart: usize,
    next: usize,
    live: bool,
    key: [u8; KEY_MAX],
    key_len: usize,
    val: [u8; VAL_MAX],
    val_len: usize,
    seq: u64,
    tombstone: bool,
    // TTL expiry of the head entry (`0` = no expiry). Carried so the
    // merge's TTL purge can convert expired values to tombstones.
    expire_at: u64,
}

impl<const BLOCK: usize, const KEY_MAX: usize, const VAL_MAX: usize> Cursor<
    BLOCK,
    KEY_MAX,
    VAL_MAX,
> {
    /// Positions and lengths lie in their buffers.
    pub closed spec fn wf(&self) -> bool {
        &&& BLOCK >= 6
        &&& self.next <= self.rstart <= BLOCK - 6
        &&& self.key_len <= KEY_MAX
        &&& self.val_len <= VAL_MAX
        &&& self.live ==> self.key_len >= 1 && self.block_idx < self.data_blocks
    }

    /// Parked on an entry.
    pub closed spec fn is_live(&self) -> bool {
        self.live
    }

    /// The parked entry.
    pub closed spec fn head_rec(&self) -> Rec {
        Rec {
            key: self.key@.take(self.key_len as int),
            val: self.val@.take(self.val_len as int),
            seq: self.seq,
            tombstone: self.tombstone,
            range_del: false,
            expire_at: self.expire_at,
        }
    }

    /// The loaded block is the one on the device.
    pub closed spec fn loaded(&self, c: Map<u64, Seq<u8>>) -> bool {
        self.live ==> {
            &&& self.block_id == self.first_block + self.block_idx
            &&& entry_area(c[self.block_id]) == Some(self.block@.take(self.rstart as int))
        }
    }

    /// First data block of the table.
    pub closed spec fn first(&self) -> u64 {
        self.first_block
    }

    /// Data blocks of the table.
    pub closed spec fn blocks(&self) -> u64 {
        self.data_blocks
    }

    /// What follows the head in its block.
    spec fn block_rest(&self) -> StreamV {
        block_stream(
            self.block@.take(self.rstart as int).skip(self.next as int),
            self.block_id,
            KEY_MAX,
            VAL_MAX,
        )
    }

    /// What the cursor has yet to yield, its head first.
    pub closed spec fn rest(&self, c: Map<u64, Seq<u8>>) -> StreamV {
        if !self.live {
            ended()
        } else {
            before(
                self.head_rec(),
                joined(
                    self.block_rest(),
                    data_stream(
                        c,
                        self.first_block,
                        self.data_blocks,
                        KEY_MAX,
                        VAL_MAX,
                        self.block_idx + 1,
                    ),
                ),
            )
        }
    }

    /// The head leads what is left, and a parked cursor has one.
    pub proof fn lemma_head(&self, c: Map<u64, Seq<u8>>)
        requires
            self.wf(),
        ensures
            self.is_live() <==> self.rest(c).recs.len() > 0,
            self.is_live() ==> self.rest(c).recs[0] == self.head_rec(),
            self.is_live() ==> rec_within(self.head_rec(), KEY_MAX, VAL_MAX),
            !self.is_live() ==> self.rest(c) == ended(),
            forall|i: int|
                0 <= i < self.rest(c).recs.len() ==> rec_within(
                    #[trigger] self.rest(c).recs[i],
                    KEY_MAX,
                    VAL_MAX,
                ),
    {
        if self.live {
            let b = self.block_rest();
            let d = data_stream(
                c,
                self.first_block,
                self.data_blocks,
                KEY_MAX,
                VAL_MAX,
                self.block_idx + 1,
            );
            let all = self.rest(c);
            lemma_block_stream_bounds(
                self.block@.take(self.rstart as int).skip(self.next as int),
                self.block_id,
                KEY_MAX,
                VAL_MAX,
            );
            lemma_data_stream_bounds(
                c,
                self.first_block,
                self.data_blocks,
                KEY_MAX,
                VAL_MAX,
                self.block_idx + 1,
            );
            assert forall|i: int| 0 <= i < all.recs.len() implies rec_within(
                #[trigger] all.recs[i],
                KEY_MAX,
                VAL_MAX,
            ) by {
                if 0 < i <= b.recs.len() {
                    assert(all.recs[i] == b.recs[i - 1]);
                } else if i > 0 {
                    assert(all.recs[i] == d.recs[i - 1 - b.recs.len()]);
                }
            }
        }
    }

    /// A device that keeps the table's data blocks keeps what is left.
    pub proof fn lemma_same_rest(&self, c0: Map<u64, Seq<u8>>, c1: Map<u64, Seq<u8>>)
        requires
            same_blocks(c0, c1, self.first() as int, self.first() + self.blocks()),
        ensures
            self.rest(c0) == self.rest(c1),
    {
        lemma_same_stream(
            c0,
            c1,
            self.first_block,
            self.data_blocks,
            KEY_MAX,
            VAL_MAX,
            self.block_idx + 1,
        );
    }

    /// A cursor over nothing.
    #[must_use]
    pub fn empty() -> (r: Self)
        ensures
            BLOCK >= 6 ==> r.wf(),
            !r.is_live(),
            r.first() == 0,
            r.blocks() == 0,
    {
        Cursor {
            first_block: 0,
            data_blocks: 0,
            block_idx: 0,
            block_id: 0,
            block: [0u8; BLOCK],
            rstart: 0,
            next: 0,
            live: false,
            key: [0u8; KEY_MAX],
            key_len: 0,
            val: [0u8; VAL_MAX],
            val_len: 0,
            seq: 0,
            tombstone: false,
            expire_at: 0,
        }
    }

    /// True when parked on an entry.
    #[must_use]
    pub fn live(&self) -> (r: bool)
        ensures
            r == self.is_live(),
    {
        self.live
    }

    /// The parked entry's key.
    #[must_use]
    pub fn key(&self) -> (r: &[u8])
        requires
            self.wf(),
        ensures
            r@ == self.head_rec().key,
    {
        let n: usize = self.key_len;
        assert(self.key@.subrange(0, n as int) =~= self.key@.take(n as int));
        &self.key[0..n]
    }

    /// The parked entry's value.
    #[must_use]
    pub fn val(&self) -> (r: &[u8])
        requires
            self.wf(),
        ensures
            r@ == self.head_rec().val,
    {
        let n: usize = self.val_len;
        assert(self.val@.subrange(0, n as int) =~= self.val@.take(n as int));
        &self.val[0..n]
    }

    /// The parked entry's sequence number.
    #[must_use]
    pub fn seq(&self) -> (r: u64)
        ensures
            r == self.head_rec().seq,
    {
        self.seq
    }

    /// True when the parked entry is a deletion marker.
    #[must_use]
    pub fn tombstone(&self) -> (r: bool)
        ensures
            r == self.head_rec().tombstone,
    {
        self.tombstone
    }

    /// The parked entry's expiry tick (`0` = no expiry).
    #[must_use]
    pub fn expire_at(&self) -> (r: u64)
        ensures
            r == self.head_rec().expire_at,
    {
        self.expire_at
    }

    /// Loads data block `idx` of the cursor's table: reads, CRC-checks,
    /// inflates when the compression flag is set, and locates the entries
    /// end.
    fn read_data_block<D: BlockDevice>(
        &mut self,
        device: &D,
        raw: &mut [u8; BLOCK],
        idx: u64,
    ) -> (r: Result<(), Error<D::Error>>)
        requires
            BLOCK >= 6,
            D::BLOCK == BLOCK,
            old(self).wf(),
            idx < old(self).data_blocks,
        ensures
            final(self).wf(),
            final(self).first_block == old(self).first_block,
            final(self).data_blocks == old(self).data_blocks,
            ({
                let c = device.content();
                let id = old(self).first_block + idx;
                match r {
                    Ok(()) => {
                        &&& id <= u64::MAX
                        &&& final(self).block_id == id
                        &&& final(self).block_idx == idx
                        &&& final(self).next == 0
                        &&& final(self).rstart > 0
                        &&& !final(self).live
                        &&& entry_area(c[id as u64]) == Some(
                            final(self).block@.take(final(self).rstart as int),
                        )
                    },
                    Err(e) => e is Device || e == (if id > u64::MAX {
                        Error::<D::Error>::CorruptBlock { id: old(self).first_block }
                    } else {
                        Error::<D::Error>::CorruptBlock { id: id as u64 }
                    }) && (id <= u64::MAX ==> entry_area(c[id as u64]) is None),
                }
            }),
    {
        self.live = false;
        self.next = 0;
        self.rstart = 0;
        let id: u64 = match self.first_block.checked_add(idx) {
            None => {
                return Err(Error::CorruptBlock { id: self.first_block });
            },
            Some(id) => id,
        };
        match device.read_block(id, raw) {
            Ok(()) => {},
            Err(e) => {
                return Err(Error::Device(e));
            },
        }
        match check_block_crc::<D::Error, BLOCK>(raw, id) {
            Ok(()) => {},
            Err(e) => {
                return Err(e);
            },
        }
        match inflate_data_block::<D::Error, BLOCK>(raw, &mut self.block, id) {
            Ok(true) => {},
            Ok(false) => {
                copy_into(&mut self.block, 0, raw);
                proof {
                    reveal(spliced);
                    assert(self.block@ =~= raw@);
                }
            },
            Err(e) => {
                return Err(e);
            },
        }
        let ghost body = logical_of(raw@)->0;
        assert(payload_of(self.block@) =~= body);
        let rstart: usize = match data_entries_end::<D::Error, BLOCK>(&self.block, id) {
            Ok(n) => n,
            Err(e) => {
                return Err(e);
            },
        };
        if rstart == 0 {
            // A data block always carries at least one entry.
            return Err(Error::CorruptBlock { id });
        }
        assert(body.take(rstart as int) =~= self.block@.take(rstart as int));
        self.block_id = id;
        self.block_idx = idx;
        self.rstart = rstart;
        Ok(())
    }

    /// Parses the entry at `off` into the cursor's head buffers. Returns
    /// `true` when parked on an entry, `false` at the writer's zero padding.
    /// Anything else unparseable is [`Error::CorruptBlock`].
    fn parse_head_at<E>(&mut self, off: usize) -> (r: Result<bool, Error<E>>)
        requires
            old(self).wf(),
            off <= old(self).rstart,
            old(self).block_idx < old(self).data_blocks,
        ensures
            final(self).wf(),
            final(self).first_block == old(self).first_block,
            final(self).data_blocks == old(self).data_blocks,
            final(self).block_idx == old(self).block_idx,
            final(self).block_id == old(self).block_id,
            final(self).block == old(self).block,
            final(self).rstart == old(self).rstart,
            ({
                let b = block_stream(
                    old(self).block@.take(old(self).rstart as int).skip(off as int),
                    old(self).block_id,
                    KEY_MAX,
                    VAL_MAX,
                );
                match r {
                    Ok(true) => {
                        &&& final(self).live
                        &&& b == before(final(self).head_rec(), final(self).block_rest())
                    },
                    Ok(false) => {
                        &&& b == ended()
                        &&& *final(self) == *old(self)
                    },
                    Err(e) => {
                        &&& b.recs.len() == 0
                        &&& b.fault matches Some(f) && e == fault_error::<E>(f, KEY_MAX, VAL_MAX)
                    },
                }
            }),
    {
        let ghost area = self.block@.take(self.rstart as int);
        let ghost s = area.skip(off as int);
        let end: usize = self.rstart;
        assert(self.block@.subrange(off as int, end as int) =~= s);
        let mut key_len: usize = 0;
        let mut val_len: usize = 0;
        let mut seq: u64 = 0;
        let mut tombstone: bool = false;
        let mut expire_at: u64 = 0;
        let mut next: usize = 0;
        let ghost mut e = self.head_rec();
        match parse_data_entry::<E, BLOCK>(&self.block, off, end, self.block_id) {
            Ok(entry) => {
                key_len = entry.key.len();
                val_len = entry.val.len();
                proof {
                    e = entry.rec();
                    lemma_ent_parse_bound(s);
                }
                if key_len > KEY_MAX {
                    return Err(Error::KeyTooLarge { len: key_len, max: KEY_MAX });
                }
                if val_len > VAL_MAX {
                    return Err(Error::ValueTooLarge { len: val_len, max: VAL_MAX });
                }
                copy_into(&mut self.key, 0, entry.key);
                copy_into(&mut self.val, 0, entry.val);
                seq = entry.seq;
                tombstone = entry.tombstone;
                expire_at = entry.expire_at;
                next = entry.next;
            },
            Err(_) => {
                // Genuine zero padding (all zeros up to the restart tail)
                // marks end-of-entries; any other unparseable structure is
                // corruption.
                proof {
                    if off >= end {
                        assert(s =~= Seq::<u8>::empty());
                    }
                }
                if all_zero(&self.block[off..end]) {
                    return Ok(false);
                }
                return Err(Error::CorruptBlock { id: self.block_id });
            },
        }
        self.key_len = key_len;
        self.val_len = val_len;
        self.seq = seq;
        self.tombstone = tombstone;
        self.expire_at = expire_at;
        self.next = next;
        self.live = true;
        proof {
            reveal(spliced);
            assert(self.key@.take(key_len as int) =~= e.key);
            assert(self.val@.take(val_len as int) =~= e.val);
            assert(self.head_rec() == e);
            assert(s.skip(next - off) =~= area.skip(next as int));
            assert(self.block@.take(self.rstart as int) == area);
        }
        Ok(true)
    }

    /// Positions a cursor on its table's first entry. A table with no data
    /// blocks parks exhausted. `raw` is the caller's shared physical-read
    /// scratch.
    ///
    /// # Errors
    ///
    /// [`Error::CorruptBlock`] on a malformed reference or a block that does
    /// not verify or parse, [`Error::KeyTooLarge`] / [`Error::ValueTooLarge`]
    /// on an entry beyond the limits, or [`Error::Device`] on I/O failure.
    pub fn init<D: BlockDevice>(
        &mut self,
        device: &D,
        raw: &mut [u8; BLOCK],
        tref: &TableRef<KEY_MAX>,
    ) -> (r: Result<(), Error<D::Error>>)
        requires
            BLOCK >= 6,
            D::BLOCK == BLOCK,
        ensures
            final(self).wf(),
            ({
                let s = table_stream(device.content(), tref@, KEY_MAX, VAL_MAX);
                match r {
                    Ok(()) => {
                        &&& final(self).rest(device.content()) == s
                        &&& Some(final(self).blocks()) == data_blocks_of(tref@)
                        &&& final(self).first() == tref@.first_block
                    },
                    Err(e) => e is Device || stream_fails(s, 0, e, KEY_MAX, VAL_MAX),
                }
            }),
    {
        self.init_at(device, raw, tref, 0)
    }

    /// Positions the cursor on the first entry of the table's data block
    /// `idx`; without data blocks it is exhausted.
    ///
    /// # Errors
    ///
    /// As [`init`](Cursor::init); [`Error::CorruptBlock`] also when the
    /// table has no such block.
    pub fn init_at<D: BlockDevice>(
        &mut self,
        device: &D,
        raw: &mut [u8; BLOCK],
        tref: &TableRef<KEY_MAX>,
        idx: u64,
    ) -> (r: Result<(), Error<D::Error>>)
        requires
            BLOCK >= 6,
            D::BLOCK == BLOCK,
        ensures
            final(self).wf(),
            r is Ok ==> final(self).loaded(device.content()),
            match data_blocks_of(tref@) {
                None => r == Err::<(), Error<D::Error>>(
                    Error::CorruptBlock { id: tref.first_block },
                ),
                Some(n) => if idx >= n && n > 0 {
                    r == Err::<(), Error<D::Error>>(Error::CorruptBlock { id: tref.first_block })
                } else {
                    let s = data_stream(
                        device.content(),
                        tref.first_block,
                        n,
                        KEY_MAX,
                        VAL_MAX,
                        idx as int,
                    );
                    match r {
                        Ok(()) => {
                            &&& final(self).rest(device.content()) == s
                            &&& final(self).blocks() == n
                            &&& final(self).first() == tref.first_block
                        },
                        Err(e) => e is Device || stream_fails(s, 0, e, KEY_MAX, VAL_MAX),
                    }
                },
            },
    {
        *self = Cursor::empty();
        self.first_block = tref.data_first();
        let data_blocks: u64 = match tref.data_blocks() {
            None => {
                return Err(Error::CorruptBlock { id: tref.first_block });
            },
            Some(n) => n,
        };
        self.data_blocks = data_blocks;
        if data_blocks == 0 {
            return Ok(());
        }
        if idx >= data_blocks {
            return Err(Error::CorruptBlock { id: tref.first_block });
        }
        match self.read_data_block(device, raw, idx) {
            Ok(()) => {},
            Err(e) => {
                return Err(e);
            },
        }
        proof {
            let a = self.block@.take(self.rstart as int);
            assert(a.skip(0) =~= a);
        }
        match self.parse_head_at::<D::Error>(0) {
            Ok(true) => {},
            Ok(false) => {
                // The writer never emits an empty data block.
                return Err(Error::CorruptBlock { id: self.block_id });
            },
            Err(e) => {
                return Err(e);
            },
        }
        proof {
            let c = device.content();
            let d = data_stream(c, self.first_block, self.data_blocks, KEY_MAX, VAL_MAX, idx + 1);
            let b = self.block_rest();
            assert(before(self.head_rec(), joined(b, d)) =~= joined(
                before(self.head_rec(), b),
                d,
            ));
        }
        Ok(())
    }

    /// Advances the cursor past its head entry. Returns `true` when parked
    /// on a new head, `false` when the table is exhausted.
    ///
    /// # Errors
    ///
    /// As [`init`](Cursor::init), for the entry after the head.
    pub fn advance<D: BlockDevice>(&mut self, device: &D, raw: &mut [u8; BLOCK]) -> (r: Result<
        bool,
        Error<D::Error>,
    >)
        requires
            D::BLOCK == BLOCK,
            old(self).wf(),
            old(self).is_live(),
        ensures
            final(self).wf(),
            final(self).first() == old(self).first(),
            final(self).blocks() == old(self).blocks(),
            r is Ok && old(self).loaded(device.content()) ==> final(self).loaded(
                device.content(),
            ),
            ({
                let s = old(self).rest(device.content());
                match r {
                    Ok(more) => {
                        &&& final(self).rest(device.content()) == (StreamV {
                            recs: s.recs.skip(1),
                            fault: s.fault,
                        })
                        &&& more == final(self).is_live()
                    },
                    Err(e) => e is Device || stream_fails(s, 1, e, KEY_MAX, VAL_MAX),
                }
            }),
    {
        let ghost c = device.content();
        let ghost s0 = self.rest(c);
        let ghost h = self.head_rec();
        let ghost b = self.block_rest();
        let ghost d = data_stream(
            c,
            self.first_block,
            self.data_blocks,
            KEY_MAX,
            VAL_MAX,
            self.block_idx + 1,
        );
        assert(s0.recs.skip(1) =~= joined(b, d).recs);
        // Another entry in this block? Zero padding means the block's
        // entries are done: move on to the next data block.
        let off: usize = self.next;
        match self.parse_head_at::<D::Error>(off) {
            Ok(true) => {
                proof {
                    assert(before(self.head_rec(), joined(self.block_rest(), d)) =~= joined(b, d));
                }
                return Ok(true);
            },
            Ok(false) => {},
            Err(e) => {
                return Err(e);
            },
        }
        assert(joined(b, d) =~= d);
        let idx: u64 = self.block_idx + 1;
        if idx >= self.data_blocks {
            self.live = false;
            return Ok(false);
        }
        match self.read_data_block(device, raw, idx) {
            Ok(()) => {},
            Err(e) => {
                return Err(e);
            },
        }
        proof {
            let a = self.block@.take(self.rstart as int);
            assert(a.skip(0) =~= a);
        }
        match self.parse_head_at::<D::Error>(0) {
            Ok(true) => {},
            Ok(false) => {
                // The writer never emits an empty data block.
                return Err(Error::CorruptBlock { id: self.block_id });
            },
            Err(e) => {
                return Err(e);
            },
        }
        proof {
            let d2 = data_stream(
                c,
                self.first_block,
                self.data_blocks,
                KEY_MAX,
                VAL_MAX,
                self.block_idx + 1,
            );
            let b2 = self.block_rest();
            assert(before(self.head_rec(), joined(b2, d2)) =~= joined(
                before(self.head_rec(), b2),
                d2,
            ));
        }
        Ok(true)
    }

    /// Loads the block of a parked cursor again, to go on from its head.
    ///
    /// # Errors
    ///
    /// [`Error::Device`] on I/O failure.
    pub fn resume<D: BlockDevice>(
        &mut self,
        device: &D,
        raw: &mut [u8; BLOCK],
        p: &Parked<KEY_MAX, VAL_MAX>,
    ) -> (r: Result<(), Error<D::Error>>)
        requires
            BLOCK >= 6,
            D::BLOCK == BLOCK,
            p.wf(),
            p.loaded(device.content()),
        ensures
            match r {
                Ok(()) => {
                    &&& final(self).wf()
                    &&& final(self).loaded(device.content())
                    &&& final(self).rest(device.content()) == p.rest(device.content())
                },
                Err(e) => e is Device,
            },
    {
        *self = Cursor::empty();
        self.first_block = p.first_block;
        self.data_blocks = p.data_blocks;
        if !p.live {
            return Ok(());
        }
        match self.read_data_block(device, raw, p.block_idx) {
            Ok(()) => {},
            Err(e) => {
                return Err(e);
            },
        }
        self.next = p.next;
        self.key = p.key;
        self.key_len = p.key_len;
        self.val = p.val;
        self.val_len = p.val_len;
        self.seq = p.seq;
        self.tombstone = p.tombstone;
        self.expire_at = p.expire_at;
        self.live = true;
        Ok(())
    }
}

/// A cursor put aside: its head entry and where it stands, without its
/// block. The block is loaded again to go on.
#[derive(Clone, Copy)]
pub struct Parked<const KEY_MAX: usize, const VAL_MAX: usize> {
    first_block: u64,
    data_blocks: u64,
    block_idx: u64,
    next: usize,
    live: bool,
    key: [u8; KEY_MAX],
    key_len: usize,
    val: [u8; VAL_MAX],
    val_len: usize,
    seq: u64,
    tombstone: bool,
    expire_at: u64,
}

impl<const KEY_MAX: usize, const VAL_MAX: usize> Parked<KEY_MAX, VAL_MAX> {
    /// Lengths lie in their buffers.
    pub closed spec fn wf(&self) -> bool {
        &&& self.key_len <= KEY_MAX
        &&& self.val_len <= VAL_MAX
        &&& self.live ==> self.key_len >= 1 && self.block_idx < self.data_blocks
    }

    /// Parked on an entry.
    pub closed spec fn is_live(&self) -> bool {
        self.live
    }

    /// The parked entry.
    pub closed spec fn head_rec(&self) -> Rec {
        Rec {
            key: self.key@.take(self.key_len as int),
            val: self.val@.take(self.val_len as int),
            seq: self.seq,
            tombstone: self.tombstone,
            range_del: false,
            expire_at: self.expire_at,
        }
    }

    /// The block of the head.
    spec fn at(&self) -> u64 {
        (self.first_block + self.block_idx) as u64
    }

    /// The block of the head can be loaded again.
    pub closed spec fn loaded(&self, c: Map<u64, Seq<u8>>) -> bool {
        self.live ==> {
            &&& self.first_block + self.block_idx <= u64::MAX
            &&& entry_area(c[self.at()]) matches Some(area) && self.next <= area.len()
        }
    }

    /// What the cursor has yet to yield, its head first.
    pub closed spec fn rest(&self, c: Map<u64, Seq<u8>>) -> StreamV {
        if !self.live {
            ended()
        } else {
            before(
                self.head_rec(),
                joined(
                    block_stream(
                        (entry_area(c[self.at()])->0).skip(self.next as int),
                        self.at(),
                        KEY_MAX,
                        VAL_MAX,
                    ),
                    data_stream(
                        c,
                        self.first_block,
                        self.data_blocks,
                        KEY_MAX,
                        VAL_MAX,
                        self.block_idx + 1,
                    ),
                ),
            )
        }
    }

    /// The head leads what is left, and a parked cursor has one.
    pub proof fn lemma_head(&self, c: Map<u64, Seq<u8>>)
        requires
            self.wf(),
        ensures
            self.is_live() <==> self.rest(c).recs.len() > 0,
            self.is_live() ==> self.rest(c).recs[0] == self.head_rec(),
            self.is_live() ==> rec_within(self.head_rec(), KEY_MAX, VAL_MAX),
            !self.is_live() ==> self.rest(c) == ended(),
    {
    }

    /// A cursor over nothing.
    #[must_use]
    pub fn empty() -> (r: Self)
        ensures
            r.wf(),
            !r.is_live(),
    {
        Parked {
            first_block: 0,
            data_blocks: 0,
            block_idx: 0,
            next: 0,
            live: false,
            key: [0u8; KEY_MAX],
            key_len: 0,
            val: [0u8; VAL_MAX],
            val_len: 0,
            seq: 0,
            tombstone: false,
            expire_at: 0,
        }
    }

    /// Puts a cursor aside.
    #[must_use]
    pub fn of<const BLOCK: usize>(
        cur: &Cursor<BLOCK, KEY_MAX, VAL_MAX>,
        Ghost(c): Ghost<Map<u64, Seq<u8>>>,
    ) -> (r: Self)
        requires
            cur.wf(),
            cur.loaded(c),
        ensures
            r.wf(),
            r.loaded(c),
            r.rest(c) == cur.rest(c),
    {
        Parked {
            first_block: cur.first_block,
            data_blocks: cur.data_blocks,
            block_idx: cur.block_idx,
            next: cur.next,
            live: cur.live,
            key: cur.key,
            key_len: cur.key_len,
            val: cur.val,
            val_len: cur.val_len,
            seq: cur.seq,
            tombstone: cur.tombstone,
            expire_at: cur.expire_at,
        }
    }

    /// True when parked on an entry.
    #[must_use]
    pub fn live(&self) -> (r: bool)
        ensures
            r == self.is_live(),
    {
        self.live
    }

    /// The parked entry's key.
    #[must_use]
    pub fn key(&self) -> (r: &[u8])
        requires
            self.wf(),
        ensures
            r@ == self.head_rec().key,
    {
        let n: usize = self.key_len;
        assert(self.key@.subrange(0, n as int) =~= self.key@.take(n as int));
        &self.key[0..n]
    }

    /// The parked entry's value.
    #[must_use]
    pub fn val(&self) -> (r: &[u8])
        requires
            self.wf(),
        ensures
            r@ == self.head_rec().val,
    {
        let n: usize = self.val_len;
        assert(self.val@.subrange(0, n as int) =~= self.val@.take(n as int));
        &self.val[0..n]
    }

    /// The parked entry's sequence number.
    #[must_use]
    pub fn seq(&self) -> (r: u64)
        ensures
            r == self.head_rec().seq,
    {
        self.seq
    }

    /// True when the parked entry is a deletion marker.
    #[must_use]
    pub fn tombstone(&self) -> (r: bool)
        ensures
            r == self.head_rec().tombstone,
    {
        self.tombstone
    }
}

/// Streams one table's entries.
///
/// A thin [`Cursor`] driver: it reuses compaction's entry parsing (and CRC
/// verification), so a check sees exactly the entries compaction would
/// merge. Parked on the first entry after [`open`](Self::open);
/// [`head`](Self::head) returns `None` once the table is exhausted.
pub struct EntryStream<
    'd,
    D: BlockDevice,
    const BLOCK: usize,
    const KEY_MAX: usize,
    const VAL_MAX: usize,
> {
    device: &'d D,
    // Physical-read scratch lent to the cursor fills; dead once a block is
    // inflated into the cursor.
    raw: [u8; BLOCK],
    cur: Cursor<BLOCK, KEY_MAX, VAL_MAX>,
}

impl<
    'd,
    D: BlockDevice,
    const BLOCK: usize,
    const KEY_MAX: usize,
    const VAL_MAX: usize,
> EntryStream<'d, D, BLOCK, KEY_MAX, VAL_MAX> {
    /// The cursor is well-formed.
    pub closed spec fn wf(&self) -> bool {
        self.cur.wf() && D::BLOCK == BLOCK
    }

    /// What the stream has yet to yield, its head first.
    pub closed spec fn rest(&self) -> StreamV {
        self.cur.rest(self.device.content())
    }

    /// Opens the stream on `tref`'s first entry. A table with no data
    /// blocks parks exhausted (its head is `None`).
    ///
    /// # Errors
    ///
    /// [`Error::CorruptBlock`] when a data block fails its CRC or an entry
    /// fails to parse, [`Error::KeyTooLarge`] / [`Error::ValueTooLarge`] on
    /// an entry beyond the limits, or [`Error::Device`] on I/O failure.
    pub fn open(device: &'d D, tref: &TableRef<KEY_MAX>) -> (r: Result<Self, Error<D::Error>>)
        requires
            BLOCK >= 6,
            D::BLOCK == BLOCK,
        ensures
            ({
                let s = table_stream(device.content(), tref@, KEY_MAX, VAL_MAX);
                match r {
                    Ok(es) => es.wf() && es.rest() == s,
                    Err(e) => e is Device || stream_fails(s, 0, e, KEY_MAX, VAL_MAX),
                }
            }),
    {
        let mut cur: Cursor<BLOCK, KEY_MAX, VAL_MAX> = Cursor::empty();
        let mut raw: [u8; BLOCK] = [0u8; BLOCK];
        match cur.init(device, &mut raw, tref) {
            Ok(()) => {},
            Err(e) => {
                return Err(e);
            },
        }
        Ok(EntryStream { device, raw, cur })
    }

    /// The parked entry's key, sequence, and tombstone flag, or `None`
    /// when the table is exhausted.
    #[must_use]
    pub fn head(&self) -> (r: Option<(&[u8], u64, bool)>)
        requires
            self.wf(),
        ensures
            match r {
                None => self.rest() == ended(),
                Some((key, seq, tombstone)) => {
                    &&& self.rest().recs.len() > 0
                    &&& key@ == self.rest().recs[0].key
                    &&& seq == self.rest().recs[0].seq
                    &&& tombstone == self.rest().recs[0].tombstone
                },
            },
    {
        proof {
            self.cur.lemma_head(self.device.content());
        }
        if !self.cur.live() {
            return None;
        }
        Some((self.cur.key(), self.cur.seq(), self.cur.tombstone()))
    }

    /// Advances past the head entry. Returns `true` when parked on a new
    /// head, `false` when the table is exhausted.
    ///
    /// # Errors
    ///
    /// As [`open`](Self::open), for the entry after the head.
    pub fn advance(&mut self) -> (r: Result<bool, Error<D::Error>>)
        requires
            old(self).wf(),
            old(self).rest().recs.len() > 0,
        ensures
            final(self).wf(),
            ({
                let s = old(self).rest();
                match r {
                    Ok(more) => {
                        &&& final(self).rest() == (StreamV {
                            recs: s.recs.skip(1),
                            fault: s.fault,
                        })
                        &&& more == (s.recs.len() > 1)
                    },
                    Err(e) => e is Device || stream_fails(s, 1, e, KEY_MAX, VAL_MAX),
                }
            }),
    {
        proof {
            self.cur.lemma_head(self.device.content());
        }
        let r = self.cur.advance(self.device, &mut self.raw);
        proof {
            self.cur.lemma_head(self.device.content());
        }
        r
    }
}

} // verus!

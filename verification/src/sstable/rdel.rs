//! A table's range-tombstone section: planner, writer, and block counter.
//!
//! The section layout is `[rdel block]*`: entries packed greedily at
//! `[0..payload]`, zero padding, `count u16` at `[BLOCK-6..BLOCK-4]`, CRC32
//! over `[0..BLOCK-4]`. Rdel blocks are never compressed.

use vstd::prelude::*;

use super::block::RdelEntry;
use super::format::{
    law_rdel_roundtrip, lemma_rdels_bytes_len, rdel_block, rdel_bytes, rdel_len, rdel_ok,
    rdels_bytes, rdels_len, rdels_ok, rgroup_ok, sealed, RdelV, CRC_LEN, RDEL_TRAILER,
};
use super::table::{flat_rdels, section_on};
use crate::bytes::{
    bytes_lt, copy_into, le_bytes, lemma_le_bytes_len, lemma_splice_append, lex_lt, spliced,
    store_le, zero_fill,
};
use crate::crc::crc32;
use crate::device::{same_outside, synced_outside, BlockDevice};
use crate::error::Error;
use crate::wal::padded;

verus! {

/// Block sizes whose tombstone counts fit 15 bits.
pub open spec fn rdel_shape(block: int) -> bool {
    RDEL_TRAILER <= block <= 0x7_0000
}

/// Groups with one more tombstone: in the last block where it fits, else in
/// a new one.
pub open spec fn rpacked_with(gs: Seq<Seq<RdelV>>, r: RdelV, block: int) -> Seq<Seq<RdelV>> {
    if gs.len() > 0 && rdels_len(gs.last()) + rdel_len(r) + RDEL_TRAILER <= block {
        gs.update(gs.len() - 1, gs.last().push(r))
    } else {
        gs.push(seq![r])
    }
}

/// The packing rule: how tombstones spread over rdel blocks.
pub open spec fn rpack(rs: Seq<RdelV>, block: int) -> Seq<Seq<RdelV>>
    decreases rs.len(),
{
    if rs.len() == 0 {
        Seq::empty()
    } else {
        rpacked_with(rpack(rs.drop_last(), block), rs.last(), block)
    }
}

/// Why a tombstone cannot be stored.
pub open spec fn rdel_check<E>(r: RdelV, block: int) -> Result<(), Error<E>> {
    if r.start.len() > 0xFFFF {
        Err(Error::KeyTooLarge { len: r.start.len() as usize, max: 0xFFFF })
    } else if r.end.len() > 0xFFFF {
        Err(Error::KeyTooLarge { len: r.end.len() as usize, max: 0xFFFF })
    } else if rdel_len(r) + RDEL_TRAILER > block {
        Err(Error::NoSpace)
    } else {
        Ok(())
    }
}

/// The first tombstone that cannot be stored.
pub open spec fn rdels_check<E>(rs: Seq<RdelV>, block: int) -> Result<(), Error<E>>
    decreases rs.len(),
{
    if rs.len() == 0 {
        Ok(())
    } else {
        match rdels_check::<E>(rs.drop_last(), block) {
            Err(e) => Err(e),
            Ok(()) => rdel_check::<E>(rs.last(), block),
        }
    }
}

/// Every tombstone has non-empty bounds.
pub open spec fn bounds_given(rs: Seq<RdelV>) -> bool {
    forall|i: int| 0 <= i < rs.len() ==> (#[trigger] rs[i]).start.len() >= 1 && rs[i].end.len() >= 1
}

/// Packing neither drops nor reorders tombstones, and fills blocks that can
/// be sealed.
pub proof fn law_rpack(rs: Seq<RdelV>, block: int)
    requires
        rdel_shape(block),
    ensures
        flat_rdels(rpack(rs, block)) == rs,
        rs.len() > 0 ==> rpack(rs, block).len() > 0 && rpack(rs, block).last().len() > 0,
        rpack(rs, block).len() <= rs.len(),
        bounds_given(rs) && (forall|i: int|
            0 <= i < rs.len() ==> rdel_check::<()>(#[trigger] rs[i], block) is Ok) ==> forall|j: int|
            0 <= j < rpack(rs, block).len() ==> rgroup_ok(#[trigger] rpack(rs, block)[j], block),
    decreases rs.len(),
{
    if rs.len() > 0 {
        let d = rs.drop_last();
        law_rpack(d, block);
        let gs = rpack(d, block);
        let w = rpack(rs, block);
        if w.len() == gs.len() {
            assert(w.drop_last() =~= gs.drop_last());
            assert(w.last() =~= gs.last().push(rs.last()));
        } else {
            assert(w.drop_last() =~= gs);
            assert(w.last() =~= seq![rs.last()]);
        }
        assert(flat_rdels(w) =~= d.push(rs.last()));
        assert(rs =~= d.push(rs.last()));
        if bounds_given(rs) && (forall|i: int|
            0 <= i < rs.len() ==> rdel_check::<()>(#[trigger] rs[i], block) is Ok) {
            assert forall|i: int| 0 <= i < d.len() implies rdel_check::<()>(
                #[trigger] d[i],
                block,
            ) is Ok by {
                assert(d[i] == rs[i]);
            }
            assert forall|i: int| 0 <= i < d.len() implies (#[trigger] d[i]).start.len() >= 1
                && d[i].end.len() >= 1 by {
                assert(d[i] == rs[i]);
            }
            let last = rs[rs.len() - 1];
            assert(rdel_check::<()>(last, block) is Ok);
            assert forall|j: int| 0 <= j < w.len() implies rgroup_ok(
                #[trigger] w[j],
                block,
            ) by {
                if j < gs.len() {
                    assert(rgroup_ok(gs[j], block));
                }
                if j == w.len() - 1 {
                    if w.len() == gs.len() {
                        lemma_rgroup_step(gs.last(), last, block);
                    } else {
                        assert(Seq::<RdelV>::empty().push(last) =~= seq![last]);
                        lemma_rgroup_step(Seq::empty(), last, block);
                    }
                }
            }
        }
    }
}

/// A tombstone takes 14 bytes or more.
proof fn lemma_rdels_count(rs: Seq<RdelV>)
    requires
        rdels_ok(rs),
    ensures
        14 * rs.len() <= rdels_len(rs),
    decreases rs.len(),
{
    if rs.len() > 0 {
        let d = rs.drop_last();
        assert forall|i: int| 0 <= i < d.len() implies rdel_ok(#[trigger] d[i]) by {
            assert(rdel_ok(rs[i]));
        }
        assert(rdel_ok(rs[rs.len() - 1]));
        lemma_rdels_count(d);
    }
}

/// A group with one more tombstone that fits is a group.
proof fn lemma_rgroup_step(cur: Seq<RdelV>, r: RdelV, block: int)
    requires
        rdel_shape(block),
        cur.len() > 0 ==> rgroup_ok(cur, block),
        rdel_ok(r),
        rdels_len(cur) + rdel_len(r) + RDEL_TRAILER <= block,
    ensures
        rgroup_ok(cur.push(r), block),
        rdels_len(cur.push(r)) == rdels_len(cur) + rdel_len(r),
        rdels_bytes(cur.push(r)) == rdels_bytes(cur) + rdel_bytes(r),
{
    let w = cur.push(r);
    assert(w.drop_last() =~= cur);
    assert forall|i: int| 0 <= i < w.len() implies rdel_ok(#[trigger] w[i]) by {
        if i < cur.len() {
            assert(rdel_ok(cur[i]));
        }
    }
    lemma_rdels_count(w);
}

/// Planned shape of a table's range-tombstone section.
#[derive(Debug, Clone, Copy)]
pub struct RdelPlan<'a> {
    /// Blocks the section occupies (0 when there are no tombstones).
    pub blocks: u32,
    /// Smallest tombstone start (`None` when empty).
    pub first: Option<&'a [u8]>,
    /// Largest tombstone end (`None` when empty).
    pub max_end: Option<&'a [u8]>,
    /// Highest tombstone sequence number (0 when empty).
    pub max_seq: u64,
    /// Lowest tombstone sequence number (`u64::MAX` when empty).
    pub min_seq: u64,
}

/// The tombstones of entries.
pub open spec fn rdel_views(rs: Seq<RdelEntry<'_>>) -> Seq<RdelV> {
    Seq::new(rs.len(), |i: int| rs[i]@)
}

/// Highest sequence of tombstones.
pub open spec fn rdels_top(rs: Seq<RdelV>) -> u64
    decreases rs.len(),
{
    if rs.len() == 0 {
        0
    } else {
        let t = rdels_top(rs.drop_last());
        if rs.last().seq > t {
            rs.last().seq
        } else {
            t
        }
    }
}

/// Lowest sequence of tombstones.
pub open spec fn rdels_low(rs: Seq<RdelV>) -> u64
    decreases rs.len(),
{
    if rs.len() == 0 {
        u64::MAX
    } else {
        let t = rdels_low(rs.drop_last());
        if rs.last().seq < t {
            rs.last().seq
        } else {
            t
        }
    }
}

/// Largest end of tombstones, the earliest of equal ones.
pub open spec fn rdels_end(rs: Seq<RdelV>) -> Option<Seq<u8>>
    decreases rs.len(),
{
    if rs.len() == 0 {
        None
    } else {
        let t = rdels_end(rs.drop_last());
        if t is None || lex_lt(t->0, rs.last().end) {
            Some(rs.last().end)
        } else {
            t
        }
    }
}

/// Whether every tombstone fits an empty block.
pub open spec fn rdels_fit(rs: Seq<RdelV>, block: int) -> bool {
    forall|i: int| 0 <= i < rs.len() ==> rdel_len(#[trigger] rs[i]) + RDEL_TRAILER <= block
}

/// Plans a table's range-tombstone section: block count, first start,
/// largest end, highest and lowest sequence. Uses the exact packing rule of
/// [`write_rdel_blocks`] so plan and write agree.
///
/// # Errors
///
/// [`Error::NoSpace`] when a tombstone cannot fit an empty block.
pub fn plan_rdel_blocks<'a, E, const BLOCK: usize>(rdels: &[RdelEntry<'a>]) -> (r: Result<
    RdelPlan<'a>,
    Error<E>,
>)
    requires
        rdel_shape(BLOCK as int),
        rdels@.len() <= u32::MAX,
    ensures
        ({
            let rs = rdel_views(rdels@);
            if rdels_fit(rs, BLOCK as int) {
                r matches Ok(p) && {
                    &&& p.blocks == rpack(rs, BLOCK as int).len()
                    &&& p.first is Some <==> rs.len() > 0
                    &&& p.first matches Some(s) ==> s@ == rs[0].start
                    &&& p.max_end is Some <==> rs.len() > 0
                    &&& p.max_end matches Some(s) ==> Some(s@) == rdels_end(rs)
                    &&& p.max_seq == rdels_top(rs)
                    &&& p.min_seq == rdels_low(rs)
                }
            } else {
                r matches Err(e) && e == Error::<E>::NoSpace
            }
        }),
{
    let total: usize = rdels.len();
    let ghost rs = rdel_views(rdels@);
    let mut blocks: u32 = 0;
    let mut payload: usize = 0;
    let mut first: Option<&'a [u8]> = None;
    let mut max_end: Option<&'a [u8]> = None;
    let mut max_seq: u64 = 0;
    let mut min_seq: u64 = u64::MAX;
    let mut i: usize = 0;
    assert(rs.take(0) =~= Seq::<RdelV>::empty());
    while i < total
        invariant
            rdel_shape(BLOCK as int),
            total == rdels@.len(),
            total <= u32::MAX,
            rs == rdel_views(rdels@),
            i <= total,
            blocks <= i,
            forall|j: int|
                0 <= j < i ==> rdel_len(#[trigger] rs[j]) + RDEL_TRAILER <= BLOCK,
            blocks == rpack(rs.take(i as int), BLOCK as int).len(),
            i == 0 ==> payload == 0,
            i > 0 ==> blocks > 0 && payload == rdels_len(
                rpack(rs.take(i as int), BLOCK as int).last(),
            ),
            payload <= BLOCK,
            first is Some <==> i > 0,
            first matches Some(s) ==> s@ == rs[0].start,
            max_end is Some <==> i > 0,
            max_end matches Some(s) ==> Some(s@) == rdels_end(rs.take(i as int)),
            i == 0 ==> rdels_end(rs.take(i as int)) is None,
            max_seq == rdels_top(rs.take(i as int)),
            min_seq == rdels_low(rs.take(i as int)),
        decreases total - i,
    {
        let r: RdelEntry<'a> = rdels[i];
        let ghost gs = rpack(rs.take(i as int), BLOCK as int);
        proof {
            assert(rs.take(i + 1).drop_last() =~= rs.take(i as int));
            assert(rs.take(i + 1).last() == r@);
            law_rpack(rs.take(i as int), BLOCK as int);
            assert(rs[i as int] == r@);
        }
        if first.is_none() {
            first = Some(r.start);
        }
        let grows: bool = match max_end {
            None => true,
            Some(end) => bytes_lt(end, r.end),
        };
        if grows {
            max_end = Some(r.end);
        }
        if r.seq > max_seq {
            max_seq = r.seq;
        }
        if r.seq < min_seq {
            min_seq = r.seq;
        }
        let sl: usize = r.start.len();
        let el: usize = r.end.len();
        if sl > BLOCK || el > BLOCK || sl + el + 12 + RDEL_TRAILER > BLOCK {
            return Err(Error::NoSpace);
        }
        let len: usize = sl + el + 12;
        if i == 0 || payload + len + RDEL_TRAILER > BLOCK {
            proof {
                let g = seq![r@];
                assert(g.drop_last() =~= Seq::<RdelV>::empty());
                assert(rdels_len(g) == rdel_len(r@)) by {
                    reveal_with_fuel(rdels_len, 2);
                }
            }
            blocks = blocks + 1;
            payload = len;
        } else {
            proof {
                assert(gs.last().push(r@).drop_last() =~= gs.last());
            }
            payload = payload + len;
        }
        i = i + 1;
    }
    assert(rs.take(total as int) =~= rs);
    Ok(RdelPlan { blocks, first, max_end, max_seq, min_seq })
}

/// A section being written.
#[verifier::ext_equal]
pub struct RdelWriterV {
    /// First block.
    pub base: u64,
    /// The tombstones of the sealed blocks.
    pub groups: Seq<Seq<RdelV>>,
    /// The staged tombstones.
    pub cur: Seq<RdelV>,
}

impl RdelWriterV {
    /// All blocks, the staged one last.
    pub open spec fn blocks(self) -> Seq<Seq<RdelV>> {
        if self.cur.len() == 0 {
            self.groups
        } else {
            self.groups.push(self.cur)
        }
    }
}

/// Streaming writer for a table's range-tombstone section: `push` one
/// tombstone at a time, `finish` seals the trailing partial block.
pub struct RdelWriter<const BLOCK: usize> {
    base: u64,
    buf: [u8; BLOCK],
    payload: usize,
    count: u32,
    blocks: u32,
    groups: Ghost<Seq<Seq<RdelV>>>,
    cur: Ghost<Seq<RdelV>>,
}

impl<const BLOCK: usize> View for RdelWriter<BLOCK> {
    type V = RdelWriterV;

    closed spec fn view(&self) -> RdelWriterV {
        RdelWriterV { base: self.base, groups: self.groups@, cur: self.cur@ }
    }
}

impl<const BLOCK: usize> RdelWriter<BLOCK> {
    /// The staging buffer holds what was pushed.
    pub closed spec fn wf(&self) -> bool {
        let v = self@;
        &&& rdel_shape(BLOCK as int)
        &&& v.cur.len() > 0 ==> rgroup_ok(v.cur, BLOCK as int)
        &&& forall|j: int| 0 <= j < v.groups.len() ==> rgroup_ok(#[trigger] v.groups[j], BLOCK as int)
        &&& self.payload == rdels_len(v.cur)
        &&& self.payload + RDEL_TRAILER <= BLOCK
        &&& self.buf@.take(self.payload as int) == rdels_bytes(v.cur)
        &&& self.count == v.cur.len()
        &&& self.blocks == v.groups.len()
    }

    /// What every well-formed writer satisfies.
    pub proof fn lemma_wf(&self)
        requires
            self.wf(),
        ensures
            rdel_shape(BLOCK as int),
            self@.groups.len() <= u32::MAX,
            self@.cur.len() > 0 ==> rgroup_ok(self@.cur, BLOCK as int),
            forall|j: int|
                0 <= j < self@.groups.len() ==> rgroup_ok(#[trigger] self@.groups[j], BLOCK as int),
    {
    }

    /// Writer for the section starting at `base`.
    #[must_use]
    pub fn new(base: u64) -> (r: Self)
        requires
            rdel_shape(BLOCK as int),
        ensures
            r.wf(),
            r@ == (RdelWriterV { base, groups: Seq::empty(), cur: Seq::empty() }),
    {
        let r = RdelWriter {
            base,
            buf: [0u8; BLOCK],
            payload: 0,
            count: 0,
            blocks: 0,
            groups: Ghost(Seq::empty()),
            cur: Ghost(Seq::empty()),
        };
        assert(r.buf@.take(0) =~= Seq::<u8>::empty());
        r
    }

    /// Seals the staged block.
    fn seal<D: BlockDevice>(&mut self, device: &mut D) -> (r: Result<(), Error<D::Error>>)
        requires
            old(self).wf(),
            D::BLOCK == BLOCK,
            old(self)@.cur.len() > 0,
            old(self)@.groups.len() < u32::MAX,
        ensures
            synced_outside(
                &*old(device),
                &*final(device),
                old(self)@.base + old(self)@.groups.len(),
                old(self)@.base + old(self)@.groups.len() + 1,
            ),
            ({
                let v = old(self)@;
                let id = v.base + v.groups.len();
                if id > u64::MAX {
                    &&& r == Err::<(), Error<D::Error>>(Error::NoSpace)
                    &&& *final(device) == *old(device)
                    &&& *final(self) == *old(self)
                } else {
                    &&& final(device).content() == old(device).content().insert(
                        id as u64,
                        final(device).content()[id as u64],
                    )
                    &&& match r {
                        Ok(()) => {
                            &&& final(device).content()[id as u64] == rdel_block(
                                v.cur,
                                BLOCK as int,
                            )
                            &&& final(self).wf()
                            &&& final(self)@ == (RdelWriterV {
                                groups: v.groups.push(v.cur),
                                cur: Seq::empty(),
                                ..v
                            })
                        },
                        Err(e) => e is Device,
                    }
                }
            }),
    {
        broadcast use lemma_le_bytes_len;

        let ghost v = self@;
        let id: u64 = match self.base.checked_add(self.blocks as u64) {
            None => {
                return Err(Error::NoSpace);
            },
            Some(id) => id,
        };
        let end: usize = BLOCK - CRC_LEN;
        let ghost p = padded(rdels_bytes(v.cur), (BLOCK - RDEL_TRAILER) as nat) + le_bytes(
            v.cur.len(),
            2,
        );
        proof {
            lemma_rdels_bytes_len(v.cur);
            reveal(spliced);
        }
        zero_fill(&mut self.buf, self.payload, end - 2);
        store_le(&mut self.buf, end - 2, self.count as u64, 2);
        assert(self.buf@.subrange(0, end as int) =~= p);
        let crc: u32 = crc32(&self.buf[0..end]);
        store_le(&mut self.buf, end, crc as u64, 4);
        assert(self.buf@ =~= sealed(p));
        match device.write_block(id, &self.buf) {
            Ok(()) => {},
            Err(e) => {
                return Err(Error::Device(e));
            },
        }
        self.blocks = self.blocks + 1;
        self.payload = 0;
        self.count = 0;
        proof {
            self.groups@ = v.groups.push(v.cur);
            self.cur@ = Seq::empty();
            assert(self.buf@.take(0) =~= Seq::<u8>::empty());
            assert forall|j: int| 0 <= j < self@.groups.len() implies rgroup_ok(
                #[trigger] self@.groups[j],
                BLOCK as int,
            ) by {
                if j < v.groups.len() {
                    assert(self@.groups[j] == v.groups[j]);
                }
            }
        }
        Ok(())
    }

    /// Appends one tombstone, sealing the current block first when the
    /// entry no longer fits.
    ///
    /// # Errors
    ///
    /// [`Error::KeyTooLarge`] for bounds beyond 65535 bytes,
    /// [`Error::NoSpace`] when the tombstone cannot fit in an empty
    /// block, or [`Error::Device`] on I/O failure.
    pub fn push<D: BlockDevice>(&mut self, device: &mut D, r: RdelEntry<'_>) -> (res: Result<
        (),
        Error<D::Error>,
    >)
        requires
            old(self).wf(),
            D::BLOCK == BLOCK,
            r@.start.len() >= 1,
            r@.end.len() >= 1,
            old(self)@.groups.len() < u32::MAX,
        ensures
            synced_outside(
                &*old(device),
                &*final(device),
                old(self)@.base + old(self)@.groups.len(),
                old(self)@.base + old(self)@.groups.len() + 1,
            ),
            ({
                let v = old(self)@;
                let id = v.base + v.groups.len();
                match rdel_check::<D::Error>(r@, BLOCK as int) {
                    Err(e) => {
                        &&& res == Err::<(), Error<D::Error>>(e)
                        &&& *final(device) == *old(device)
                        &&& *final(self) == *old(self)
                    },
                    Ok(()) => if rdels_len(v.cur) + rdel_len(r@) + RDEL_TRAILER <= BLOCK {
                        &&& res == Ok::<(), Error<D::Error>>(())
                        &&& *final(device) == *old(device)
                        &&& final(self).wf()
                        &&& final(self)@ == (RdelWriterV { cur: v.cur.push(r@), ..v })
                    } else if id > u64::MAX {
                        &&& res == Err::<(), Error<D::Error>>(Error::NoSpace)
                        &&& *final(device) == *old(device)
                    } else {
                        &&& final(device).content() == old(device).content().insert(
                            id as u64,
                            final(device).content()[id as u64],
                        )
                        &&& match res {
                            Ok(()) => {
                                &&& final(device).content()[id as u64] == rdel_block(
                                    v.cur,
                                    BLOCK as int,
                                )
                                &&& final(self).wf()
                                &&& final(self)@ == (RdelWriterV {
                                    groups: v.groups.push(v.cur),
                                    cur: seq![r@],
                                    ..v
                                })
                            },
                            Err(e) => e is Device,
                        }
                    },
                }
            }),
    {
        let sl: usize = r.start.len();
        let el: usize = r.end.len();
        if sl > 0xFFFF {
            return Err(Error::KeyTooLarge { len: sl, max: 0xFFFF });
        }
        if el > 0xFFFF {
            return Err(Error::KeyTooLarge { len: el, max: 0xFFFF });
        }
        let len: usize = 12 + sl + el;
        if len + RDEL_TRAILER > BLOCK {
            return Err(Error::NoSpace);
        }
        if self.payload + len + RDEL_TRAILER > BLOCK {
            proof {
                if self@.cur.len() == 0 {
                    assert(rdels_len(self@.cur) == 0);
                }
            }
            match self.seal(device) {
                Ok(()) => {},
                Err(e) => {
                    return Err(e);
                },
            }
        }
        let ghost v = self@;
        let ghost buf0 = self.buf@;
        let p: usize = self.payload;
        proof {
            let b0 = le_bytes(sl as nat, 2);
            let b1 = le_bytes(el as nat, 2);
            let b2 = le_bytes(r.seq as nat, 8);
            lemma_le_bytes_len(sl as nat, 2);
            lemma_le_bytes_len(el as nat, 2);
            lemma_le_bytes_len(r.seq as nat, 8);
            lemma_splice_append(buf0, p as int, b0, b1);
            lemma_splice_append(buf0, p as int, b0 + b1, b2);
            lemma_splice_append(buf0, p as int, b0 + b1 + b2, r.start@);
            lemma_splice_append(buf0, p as int, b0 + b1 + b2 + r.start@, r.end@);
            reveal(rdel_bytes);
            assert(b0 + b1 + b2 + r.start@ + r.end@ =~= rdel_bytes(r@));
            law_rdel_roundtrip(r@, Seq::empty());
            lemma_rgroup_step(v.cur, r@, BLOCK as int);
        }
        store_le(&mut self.buf, p, sl as u64, 2);
        store_le(&mut self.buf, p + 2, el as u64, 2);
        store_le(&mut self.buf, p + 4, r.seq, 8);
        copy_into(&mut self.buf, p + 12, r.start);
        copy_into(&mut self.buf, p + 12 + sl, r.end);
        proof {
            reveal(spliced);
            assert(self.buf@.take(p + len) =~= buf0.take(p as int) + rdel_bytes(r@));
        }
        self.payload = self.payload + len;
        self.count = self.count + 1;
        proof {
            self.cur@ = v.cur.push(r@);
            if v.cur.len() == 0 {
                assert(self@.cur =~= seq![r@]);
            }
        }
        Ok(())
    }

    /// Seals the trailing partial block. Returns the total blocks
    /// written, 0 when nothing was pushed (no section exists).
    ///
    /// # Errors
    ///
    /// [`Error::NoSpace`] when the block ids overflow, or [`Error::Device`]
    /// on I/O failure.
    pub fn finish<D: BlockDevice>(&mut self, device: &mut D) -> (r: Result<u32, Error<D::Error>>)
        requires
            old(self).wf(),
            D::BLOCK == BLOCK,
            old(self)@.groups.len() < u32::MAX,
        ensures
            synced_outside(
                &*old(device),
                &*final(device),
                old(self)@.base + old(self)@.groups.len(),
                old(self)@.base + old(self)@.groups.len() + 1,
            ),
            ({
                let v = old(self)@;
                let id = v.base + v.groups.len();
                if v.cur.len() == 0 {
                    &&& r == Ok::<u32, Error<D::Error>>(v.groups.len() as u32)
                    &&& *final(device) == *old(device)
                    &&& *final(self) == *old(self)
                } else if id > u64::MAX {
                    &&& r == Err::<u32, Error<D::Error>>(Error::NoSpace)
                    &&& *final(device) == *old(device)
                } else {
                    &&& final(device).content() == old(device).content().insert(
                        id as u64,
                        final(device).content()[id as u64],
                    )
                    &&& match r {
                        Ok(n) => {
                            &&& n == v.groups.len() + 1
                            &&& final(device).content()[id as u64] == rdel_block(
                                v.cur,
                                BLOCK as int,
                            )
                            &&& final(self).wf()
                            &&& final(self)@ == (RdelWriterV {
                                groups: v.groups.push(v.cur),
                                cur: Seq::empty(),
                                ..v
                            })
                        },
                        Err(e) => e is Device,
                    }
                }
            }),
    {
        if self.count > 0 {
            match self.seal(device) {
                Ok(()) => {},
                Err(e) => {
                    return Err(e);
                },
            }
        }
        Ok(self.blocks)
    }
}

/// Exact block counter mirroring [`RdelWriter`]'s greedy packing: feed it
/// the same entry sequence and [`finish`](RdelCounter::finish) returns the
/// block count [`RdelWriter::finish`] would report. The compaction
/// range-tombstone merge re-sorts entries across inputs, so its repacked
/// block count is not bounded by the inputs' rdel block counts; the merge
/// therefore counts exactly in a dry-run pass and reserves that many blocks.
pub struct RdelCounter<const BLOCK: usize> {
    payload: usize,
    count: u32,
    blocks: u32,
    seen: Ghost<Seq<RdelV>>,
}

impl<const BLOCK: usize> View for RdelCounter<BLOCK> {
    type V = Seq<RdelV>;

    /// The tombstones counted.
    closed spec fn view(&self) -> Seq<RdelV> {
        self.seen@
    }
}

impl<const BLOCK: usize> RdelCounter<BLOCK> {
    /// The counters are those of the packed tombstones.
    pub closed spec fn wf(&self) -> bool {
        let gs = rpack(self@, BLOCK as int);
        &&& rdel_shape(BLOCK as int)
        &&& self@.len() <= u32::MAX
        &&& self@.len() == 0 ==> self.payload == 0 && self.count == 0 && self.blocks == 0
        &&& self@.len() > 0 ==> {
            &&& self.blocks + 1 == gs.len()
            &&& self.payload == rdels_len(gs.last())
            &&& self.count == gs.last().len()
            &&& self.count >= 1
        }
        &&& self.payload <= BLOCK
        &&& self.count <= self@.len()
    }

    /// Counter for a section.
    #[must_use]
    pub fn new() -> (r: Self)
        requires
            rdel_shape(BLOCK as int),
        ensures
            r.wf(),
            r@ == Seq::<RdelV>::empty(),
    {
        RdelCounter { payload: 0, count: 0, blocks: 0, seen: Ghost(Seq::empty()) }
    }

    /// Accounts for one tombstone, sealing the current block first when
    /// the entry no longer fits, exactly as [`RdelWriter::push`] does. The
    /// tombstone must fit an empty block: merged entries came out of one.
    pub fn push(&mut self, r: RdelEntry<'_>)
        requires
            old(self).wf(),
            rdel_len(r@) + RDEL_TRAILER <= BLOCK,
            old(self)@.len() < u32::MAX,
        ensures
            final(self).wf(),
            final(self)@ == old(self)@.push(r@),
    {
        let ghost v = self@;
        let ghost gs = rpack(v, BLOCK as int);
        let len: usize = 12 + r.start.len() + r.end.len();
        proof {
            law_rpack(v, BLOCK as int);
            assert(v.push(r@).drop_last() =~= v);
        }
        if self.payload + len + RDEL_TRAILER > BLOCK {
            self.blocks = self.blocks + 1;
            self.payload = 0;
            self.count = 0;
        }
        proof {
            let w = rpack(v.push(r@), BLOCK as int);
            if v.len() > 0 && w.len() == gs.len() {
                assert(gs.last().push(r@).drop_last() =~= gs.last());
            } else {
                let g = seq![r@];
                assert(g.drop_last() =~= Seq::<RdelV>::empty());
                assert(rdels_len(g) == rdel_len(r@)) by {
                    reveal_with_fuel(rdels_len, 2);
                }
            }
        }
        self.payload = self.payload + len;
        self.count = self.count + 1;
        proof {
            self.seen@ = v.push(r@);
        }
    }

    /// Returns the total blocks the counted entries would occupy, 0 when
    /// nothing was pushed, matching [`RdelWriter::finish`].
    #[must_use]
    pub fn finish(&self) -> (r: u32)
        requires
            self.wf(),
        ensures
            r == rpack(self@, BLOCK as int).len(),
    {
        proof {
            law_rpack(self@, BLOCK as int);
        }
        if self.count > 0 {
            self.blocks + 1
        } else {
            self.blocks
        }
    }
}

/// Writes a table's range-tombstone section at `[base, base+n)`: `rdels`
/// in `(start asc, seq desc)` order, packed greedily into blocks. Returns
/// the block count, 0 when `rdels` is empty (no section is written).
///
/// The blocks are durable only after the caller's commit-point flush.
///
/// # Errors
///
/// [`Error::NoSpace`] when a single tombstone cannot fit in an empty
/// block, or [`Error::Device`] on I/O failure.
pub fn write_rdel_blocks<D: BlockDevice, const BLOCK: usize>(
    device: &mut D,
    base: u64,
    rdels: &[RdelEntry<'_>],
) -> (r: Result<u32, Error<D::Error>>)
    requires
        D::BLOCK == BLOCK,
        rdel_shape(BLOCK as int),
        bounds_given(rdel_views(rdels@)),
        rdels@.len() < u32::MAX,
    ensures
        synced_outside(
            &*old(device),
            &*final(device),
            base as int,
            base + rpack(rdel_views(rdels@), BLOCK as int).len(),
        ),
        ({
            let rs = rdel_views(rdels@);
            let gs = rpack(rs, BLOCK as int);
            &&& same_outside(
                old(device).content(),
                final(device).content(),
                base as int,
                base + gs.len(),
            )
            &&& match r {
                Ok(n) => {
                    &&& rdels_check::<D::Error>(rs, BLOCK as int) is Ok
                    &&& n == gs.len()
                    &&& section_on(final(device).content(), base as int, gs, BLOCK as int)
                    &&& base + n <= u64::MAX + 1
                },
                Err(e) => e is Device || rdels_check::<D::Error>(rs, BLOCK as int) == Err::<
                    (),
                    Error<D::Error>,
                >(e) || (e == Error::<D::Error>::NoSpace && base + gs.len() > u64::MAX),
            }
        }),
{
    let total: usize = rdels.len();
    let ghost rs = rdel_views(rdels@);
    let ghost block = BLOCK as int;
    let ghost c0 = device.content();
    let mut w: RdelWriter<BLOCK> = RdelWriter::new(base);
    let mut i: usize = 0;
    assert(rs.take(0) =~= Seq::<RdelV>::empty());
    while i < total
        invariant
            D::BLOCK == BLOCK,
            block == BLOCK,
            rdel_shape(block),
            total == rdels@.len(),
            total < u32::MAX,
            rs == rdel_views(rdels@),
            bounds_given(rs),
            c0 == old(device).content(),
            i <= total,
            w.wf(),
            w@.base == base,
            rdels_check::<D::Error>(rs.take(i as int), block) is Ok,
            w@.blocks() == rpack(rs.take(i as int), block),
            w@.cur.len() == 0 ==> i == 0 && w@.groups.len() == 0,
            w@.groups.len() <= i,
            i > 0 ==> w@.groups.len() < i,
            base + w@.groups.len() <= u64::MAX + 1,
            section_on(device.content(), base as int, w@.groups, block),
            same_outside(c0, device.content(), base as int, base + w@.groups.len()),
            synced_outside(&*old(device), &*device, base as int, base + w@.groups.len()),
        decreases total - i,
    {
        let e: RdelEntry<'_> = rdels[i];
        let ghost v = w@;
        let ghost c1 = device.content();
        proof {
            assert(rs.take(i + 1).drop_last() =~= rs.take(i as int));
            assert(rs.take(i + 1).last() == e@);
            lemma_check_prefix::<D::Error>(rs, block, i + 1);
            lemma_rpack_mono(rs, block, i as int);
            lemma_rpack_mono(rs, block, i + 1);
            assert(rs[i as int] == e@);
            if v.cur.len() > 0 {
                assert(v.blocks().last() == v.cur);
            }
        }
        match w.push(device, e) {
            Ok(()) => {
                proof {
                    let v1 = w@;
                    assert(v1.blocks() =~= rpacked_with(v.blocks(), e@, block)) by {
                        if v.cur.len() == 0 {
                            assert(v.blocks() =~= Seq::<Seq<RdelV>>::empty());
                            assert(v1.cur =~= seq![e@]);
                        }
                    }
                    assert forall|j: int| 0 <= j < v1.groups.len() implies device.content()[(base
                        + j) as u64] == rdel_block(#[trigger] v1.groups[j], block) by {
                        if j < v.groups.len() {
                            assert(v1.groups[j] == v.groups[j]);
                            assert(c1[(base + j) as u64] == rdel_block(v.groups[j], block));
                        }
                    }
                }
            },
            Err(x) => {
                return Err(x);
            },
        }
        i = i + 1;
    }
    assert(rs.take(total as int) =~= rs);
    let ghost v = w@;
    let ghost c1 = device.content();
    let r = w.finish(device);
    proof {
        if r is Ok {
            let gs = rpack(rs, block);
            assert forall|j: int| 0 <= j < gs.len() implies device.content()[(base + j) as u64]
                == rdel_block(#[trigger] gs[j], block) by {
                if j < v.groups.len() {
                    assert(gs[j] == v.groups[j]);
                    assert(c1[(base + j) as u64] == rdel_block(v.groups[j], block));
                }
            }
        }
    }
    r
}

/// A prefix takes no more blocks than the whole.
pub proof fn lemma_rpack_mono(rs: Seq<RdelV>, block: int, n: int)
    requires
        0 <= n <= rs.len(),
    ensures
        rpack(rs.take(n), block).len() <= rpack(rs, block).len(),
    decreases rs.len() - n,
{
    if n < rs.len() {
        lemma_rpack_mono(rs, block, n + 1);
        assert(rs.take(n + 1).drop_last() =~= rs.take(n));
    } else {
        assert(rs.take(n) =~= rs);
    }
}

/// The first error of a prefix is the first error of the whole.
proof fn lemma_check_prefix<E>(rs: Seq<RdelV>, block: int, n: int)
    requires
        0 <= n <= rs.len(),
    ensures
        rdels_check::<E>(rs.take(n), block) matches Err(e) ==> rdels_check::<E>(rs, block) == Err::<
            (),
            Error<E>,
        >(e),
    decreases rs.len() - n,
{
    if n < rs.len() {
        lemma_check_prefix::<E>(rs, block, n + 1);
        assert(rs.take(n + 1).drop_last() =~= rs.take(n));
    } else {
        assert(rs.take(n) =~= rs);
    }
}

/// The counter agrees with the writer: on tombstones that fit a block, the
/// blocks counted are those a writer fills.
pub proof fn law_counter_matches_writer(rs: Seq<RdelV>, r: RdelV, block: int)
    requires
        rdel_shape(block),
    ensures
        rpack(rs.push(r), block) == rpacked_with(rpack(rs, block), r, block),
{
    assert(rs.push(r).drop_last() =~= rs);
}

} // verus!

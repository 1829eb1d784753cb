//! Where a manifest's body is parsed from: a slice, or the blocks of a copy
//! on the device, one block at a time.

use vstd::prelude::*;

use crate::bytes::{le_value, load_le, spliced, take_le};
use crate::device::BlockDevice;
use crate::error::Error;
use crate::manifest::{check_block, BlockHead};
use crate::manifest_format::{copy_body, head_of, BLOCK_FRAME, BLOCK_HEADER};

verus! {

/// Bytes that are taken from the front, in order.
pub trait BodySource<E>: Sized {
    /// The bytes still to come.
    spec fn rest(&self) -> Seq<u8>;

    /// The source can be read.
    spec fn ready(&self) -> bool;

    /// No device stands behind the bytes.
    spec fn sure(&self) -> bool;

    /// The blocks that the bytes come from, the first one and how many; it
    /// stays the same.
    spec fn origin(&self) -> (Map<u64, Seq<u8>>, u64, int);

    /// Takes `n` bytes to the front of `dst`;
    /// [`Error::CorruptManifest`] when the source runs out.
    fn take(&mut self, dst: &mut [u8], n: usize) -> (r: Result<(), Error<E>>)
        requires
            old(self).ready(),
            n <= old(dst)@.len(),
        ensures
            final(dst)@.len() == old(dst)@.len(),
            final(self).sure() == old(self).sure(),
            final(self).origin() == old(self).origin(),
            match r {
                Ok(()) => {
                    &&& final(self).ready()
                    &&& n <= old(self).rest().len()
                    &&& final(self).rest() == old(self).rest().skip(n as int)
                    &&& final(dst)@ == spliced(old(dst)@, 0, old(self).rest().take(n as int))
                },
                Err(Error::CorruptManifest) => old(self).rest().len() < n,
                Err(e) => e is Device && !old(self).sure(),
            },
    ;
}

/// The device failed under the source.
pub open spec fn lost<T, E>(r: Result<T, Error<E>>, sure: bool) -> bool {
    r matches Err(e) && e is Device && !sure
}

/// The bytes were refused, or the device failed under the source.
pub open spec fn refused<T, E>(r: Result<T, Error<E>>, sure: bool) -> bool {
    lost(r, sure) || r == Err::<T, Error<E>>(Error::CorruptManifest)
}

/// Takes an integer of `n` bytes.
pub fn next_le<E, S: BodySource<E>>(src: &mut S, n: usize) -> (r: Result<u64, Error<E>>)
    requires
        old(src).ready(),
        n <= 8,
    ensures
        final(src).sure() == old(src).sure(),
        final(src).origin() == old(src).origin(),
        r is Ok ==> final(src).ready(),
        match take_le(old(src).rest(), n as nat) {
            None => refused(r, old(src).sure()),
            Some((v, rest)) => lost(r, old(src).sure()) || (r matches Ok(x) && x as nat == v
                && x < crate::bytes::pow256(n as nat) && final(src).rest() == rest),
        },
{
    let mut b: [u8; 8] = [0; 8];
    let ghost zero = b@;
    match src.take(&mut b, n) {
        Ok(()) => {},
        Err(e) => {
            return Err(e);
        },
    }
    proof {
        let s = old(src).rest().take(n as int);
        crate::bytes::lemma_splice_read(zero, 0, s, 0, n as int);
        assert(s.subrange(0, n as int) =~= s);
    }
    Ok(load_le(&b, 0, n))
}

/// A body held in one slice.
pub struct SliceSource<'a> {
    body: &'a [u8],
    pos: usize,
}

impl<'a> SliceSource<'a> {
    /// A source of all of `body`.
    pub fn new(body: &'a [u8]) -> (r: Self)
        ensures
            r.whole(body@),
    {
        SliceSource { body, pos: 0 }
    }

    /// Nothing of `body` was taken yet.
    pub closed spec fn whole(&self, body: Seq<u8>) -> bool {
        self.body@ == body && self.pos == 0
    }

    /// Nothing was taken yet: all of `body` is still to come.
    pub proof fn lemma_whole<E>(&self, body: Seq<u8>)
        requires
            self.whole(body),
        ensures
            BodySource::<E>::rest(self) == body,
            BodySource::<E>::ready(self),
            BodySource::<E>::sure(self),
    {
        assert(self.body@.skip(0) =~= self.body@);
    }

    /// Whether everything was taken.
    pub fn ended<E>(&self) -> (r: bool)
        requires
            BodySource::<E>::ready(self),
        ensures
            r <==> BodySource::<E>::rest(self).len() == 0,
    {
        self.pos == self.body.len()
    }
}

impl<'a, E> BodySource<E> for SliceSource<'a> {
    closed spec fn rest(&self) -> Seq<u8> {
        self.body@.skip(self.pos as int)
    }

    closed spec fn ready(&self) -> bool {
        self.pos <= self.body@.len()
    }

    open spec fn sure(&self) -> bool {
        true
    }

    open spec fn origin(&self) -> (Map<u64, Seq<u8>>, u64, int) {
        (Map::empty(), 0, 0)
    }

    fn take(&mut self, dst: &mut [u8], n: usize) -> (r: Result<(), Error<E>>) {
        let size: usize = self.body.len();
        if n > size - self.pos {
            return Err(Error::CorruptManifest);
        }
        let from: usize = self.pos;
        proof {
            assert(self.body@.subrange(from as int, from + n) =~= self.body@.skip(
                from as int,
            ).take(n as int));
            assert(self.body@.skip(from as int).skip(n as int) =~= self.body@.skip(from + n));
        }
        crate::bytes::copy_into(dst, 0, &self.body[from..from + n]);
        self.pos = from + n;
        Ok(())
    }
}

/// The chunk of block `i` of a copy.
spec fn chunk_at(c: Map<u64, Seq<u8>>, start: u64, i: int) -> Seq<u8> {
    let b = c[(start + i) as u64];
    b.subrange(24, 24 + head_of(b)->0.len as int)
}

/// The chunks of blocks `i..n` of a copy.
spec fn body_from(c: Map<u64, Seq<u8>>, start: u64, i: int, n: int) -> Seq<u8>
    decreases n - i,
{
    if i >= n {
        Seq::empty()
    } else {
        chunk_at(c, start, i) + body_from(c, start, i + 1, n)
    }
}

/// The chunks of all blocks are the body.
proof fn lemma_body_from(c: Map<u64, Seq<u8>>, start: u64, i: int, n: int)
    requires
        0 <= i <= n,
    ensures
        copy_body(c, start, i as nat) + body_from(c, start, i, n) == copy_body(c, start, n as nat),
    decreases n - i,
{
    if i == n {
        assert(copy_body(c, start, n as nat) + Seq::<u8>::empty() =~= copy_body(
            c,
            start,
            n as nat,
        ));
    } else {
        lemma_body_from(c, start, i + 1, n);
        let a = copy_body(c, start, i as nat);
        let b = chunk_at(c, start, i);
        let d = body_from(c, start, i + 1, n);
        assert(a + (b + d) =~= (a + b) + d);
    }
}

/// The chunks up to the last one hold it.
proof fn lemma_last_chunk(c: Map<u64, Seq<u8>>, start: u64, i: int, n: int)
    requires
        0 <= i < n,
    ensures
        body_from(c, start, i, n).len() >= chunk_at(c, start, n - 1).len(),
    decreases n - i,
{
    if i + 1 < n {
        lemma_last_chunk(c, start, i + 1, n);
    }
}

/// A body streamed from a copy's blocks, one block at a time.
pub struct BlockSource<'a, D: BlockDevice, const BLOCK: usize> {
    device: &'a D,
    block: [u8; BLOCK],
    start: u64,
    count: usize,
    // Next block of the copy to load.
    next: usize,
    // Consumed bytes of the loaded block's chunk, and its length.
    off: usize,
    len: usize,
}

/// Every block of the copy has a valid header.
pub open spec fn copy_valid(c: Map<u64, Seq<u8>>, start: u64, count: int) -> bool {
    &&& start + count <= u64::MAX
    &&& forall|i: int| 0 <= i < count ==> head_of(#[trigger] c[(start + i) as u64]) is Some
}

impl<'a, D: BlockDevice, const BLOCK: usize> BlockSource<'a, D, BLOCK> {
    /// Positions lie in the block and in the copy.
    spec fn placed(&self) -> bool {
        &&& D::BLOCK == BLOCK
        &&& BLOCK > BLOCK_FRAME
        &&& copy_valid(self.device.content(), self.start, self.count as int)
        &&& self.next <= self.count
        &&& self.off <= self.len <= BLOCK - BLOCK_FRAME
        &&& self.next == 0 ==> self.len == 0
        &&& self.len > 0 ==> self.len == chunk_at(
            self.device.content(),
            self.start,
            self.next - 1,
        ).len()
    }

    spec fn left(&self) -> Seq<u8> {
        self.block@.subrange(24 + self.off as int, 24 + self.len as int) + body_from(
            self.device.content(),
            self.start,
            self.next as int,
            self.count as int,
        )
    }

    /// A source of the whole copy.
    pub fn new(device: &'a D, start: u64, count: usize) -> (r: Self)
        requires
            D::BLOCK == BLOCK,
            BLOCK > BLOCK_FRAME,
            copy_valid(device.content(), start, count as int),
        ensures
            r.ready(),
            !r.sure(),
            r.origin() == (device.content(), start, count as int),
            r.rest() == copy_body(device.content(), start, count as nat),
    {
        let r = BlockSource { device, block: [0; BLOCK], start, count, next: 0, off: 0, len: 0 };
        proof {
            lemma_body_from(device.content(), start, 0, count as int);
            assert(r.block@.subrange(24, 24) =~= Seq::<u8>::empty());
            assert(r.rest() =~= copy_body(device.content(), start, count as nat));
        }
        r
    }

    /// Whether every block was read to its end.
    pub fn ended(&self) -> (r: bool)
        requires
            self.ready(),
        ensures
            ({
                let (c, start, count) = self.origin();
                count >= 1 ==> (r <==> {
                    &&& self.rest().len() == 0
                    &&& head_of(c[(start + count - 1) as u64])->0.len > 0
                })
            }),
    {
        proof {
            let c = self.device.content();
            let n = self.count as int;
            if n >= 1 {
                let b = c[(self.start + (n - 1)) as u64];
                assert(self.start + (n - 1) == self.start + n - 1);
                assert(head_of(b) is Some);
                assert(chunk_at(c, self.start, n - 1).len() == head_of(b)->0.len);
                if self.next < self.count {
                    lemma_last_chunk(c, self.start, self.next as int, n);
                }
            }
        }
        self.next == self.count && self.off == self.len
    }
}

impl<'a, D: BlockDevice, const BLOCK: usize> BodySource<D::Error> for BlockSource<'a, D, BLOCK> {
    closed spec fn rest(&self) -> Seq<u8> {
        self.left()
    }

    closed spec fn ready(&self) -> bool {
        self.placed() && (self.next > 0 ==> self.off > 0)
    }

    open spec fn sure(&self) -> bool {
        false
    }

    closed spec fn origin(&self) -> (Map<u64, Seq<u8>>, u64, int) {
        (self.device.content(), self.start, self.count as int)
    }

    fn take(&mut self, dst: &mut [u8], n: usize) -> (r: Result<(), Error<D::Error>>) {
        let ghost c = self.device.content();
        let ghost all = self.left();
        let ghost first = dst@;
        let mut done: usize = 0;
        assert(all.skip(0) =~= all);
        while done < n
            invariant
                n <= dst@.len(),
                dst@.len() == first.len(),
                done <= n,
                done <= all.len(),
                self.placed(),
                c == self.device.content(),
                self.device == old(self).device,
                self.start == old(self).start,
                self.count == old(self).count,
                self.left() == all.skip(done as int),
                first == old(dst)@,
                all == old(self).left(),
                done == n && n > 0 ==> self.off > 0,
                n == 0 ==> *self == *old(self),
                forall|k: int| 0 <= k < done ==> #[trigger] dst@[k] == all[k],
                forall|k: int| done <= k < dst@.len() ==> #[trigger] dst@[k] == first[k],
            decreases n - done, self.count - self.next,
        {
            if self.off == self.len {
                if self.next == self.count {
                    assert(self.left().len() == 0);
                    return Err(Error::CorruptManifest);
                }
                let ghost before = *self;
                let id: u64 = self.start + self.next as u64;
                match self.device.read_block(id, &mut self.block) {
                    Ok(()) => {},
                    Err(e) => {
                        return Err(Error::Device(e));
                    },
                }
                assert(self.block@ == c[(self.start + self.next) as u64]);
                let head: BlockHead = match check_block(&self.block) {
                    Some(h) => h,
                    None => {
                        assert(false);
                        return Err(Error::CorruptManifest);
                    },
                };
                self.next = self.next + 1;
                self.off = 0;
                self.len = head.len;
                proof {
                    assert(self.left() =~= before.left());
                }
            } else {
                let ghost before = *self;
                dst[done] = self.block[BLOCK_HEADER + self.off];
                self.off = self.off + 1;
                proof {
                    assert(before.left()[0] == self.block@[24 + before.off as int]);
                    assert(self.left() =~= before.left().skip(1));
                    assert(all.skip(done as int).skip(1) =~= all.skip(done + 1));
                }
                done = done + 1;
            }
        }
        proof {
            reveal(spliced);
            assert(dst@ =~= spliced(first, 0, all.take(n as int)));
        }
        Ok(())
    }
}

} // verus!

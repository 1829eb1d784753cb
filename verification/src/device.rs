//! The only I/O boundary: a fixed-block storage device.

use vstd::prelude::*;

verus! {

/// A fixed-block storage device. All I/O is whole blocks.
///
/// The device is modelled by two maps from block id to bytes: its contents,
/// and the part of them that a power loss leaves. Nothing promises that an
/// operation succeeds; a successful read gives the stored bytes, a
/// successful write stores them, and a failed write leaves every other block
/// alone (the written block may be torn). What was written is sure to
/// outlast a power loss only after a successful flush.
pub trait BlockDevice: Sized {
    /// The device's own error type, passed through as
    /// [`Error::Device`](crate::error::Error::Device).
    type Error;

    /// Block size in bytes (e.g. 4096). Must be at least 512.
    const BLOCK: usize;

    /// The stored blocks. A verified device gives its own: with the default,
    /// none, no `write_block` meets its contract. The default serves
    /// implementations outside verified code, which give no model.
    open spec fn content(&self) -> Map<u64, Seq<u8>> {
        Map::empty()
    }

    /// The blocks that a power loss leaves: by default the stored ones, as
    /// on a device whose writes last at once.
    open spec fn durable(&self) -> Map<u64, Seq<u8>> {
        self.content()
    }

    /// Reads block `id` into `buf`.
    fn read_block(&self, id: u64, buf: &mut [u8]) -> (r: Result<(), Self::Error>)
        requires
            old(buf)@.len() == Self::BLOCK,
        ensures
            final(buf)@.len() == Self::BLOCK,
            r is Ok ==> final(buf)@ == self.content()[id],
    ;

    /// Writes `buf` to block `id`.
    fn write_block(&mut self, id: u64, buf: &[u8]) -> (r: Result<(), Self::Error>)
        requires
            buf@.len() == Self::BLOCK,
        ensures
            final(self).content() == old(self).content().insert(id, final(self).content()[id]),
            r is Ok ==> final(self).content()[id] == buf@,
            forall|x: u64|
                x != id ==> #[trigger] final(self).durable()[x] == old(self).durable()[x],
    ;

    /// Makes all preceding writes durable.
    fn flush(&mut self) -> (r: Result<(), Self::Error>)
        ensures
            final(self).content() == old(self).content(),
            r is Ok ==> final(self).durable() == final(self).content(),
            forall|x: u64| #[trigger]
                final(self).durable()[x] == old(self).durable()[x] || final(self).durable()[x]
                    == final(self).content()[x],
    ;
}

/// What a power loss leaves of block `x` is what is stored there.
pub open spec fn synced<D: BlockDevice>(d: &D, x: u64) -> bool {
    d.durable()[x] == d.content()[x]
}

/// From `a` to `b`, blocks outside `[lo, hi)` whose stored bytes were
/// durable still are.
pub open spec fn synced_outside<D: BlockDevice>(a: &D, b: &D, lo: int, hi: int) -> bool {
    forall|x: u64| !(lo <= x < hi) && synced(a, x) ==> #[trigger] synced(b, x)
}

/// One change after another, each within the blocks.
pub proof fn lemma_synced_on<D: BlockDevice>(a: &D, b: &D, c: &D, lo: int, hi: int)
    requires
        synced_outside(a, b, lo, hi),
        synced_outside(b, c, lo, hi),
    ensures
        synced_outside(a, c, lo, hi),
{
    assert forall|x: u64| !(lo <= x < hi) && synced(a, x) implies #[trigger] synced(c, x) by {
        assert(synced(b, x));
    }
}

/// Blocks that hold the ones that changed.
pub proof fn lemma_synced_wider<D: BlockDevice>(a: &D, b: &D, lo: int, hi: int, l: int, h: int)
    requires
        synced_outside(a, b, lo, hi),
        lo >= hi || l <= lo && hi <= h,
    ensures
        synced_outside(a, b, l, h),
{
    assert forall|x: u64| !(l <= x < h) && synced(a, x) implies #[trigger] synced(b, x) by {
        assert(!(lo <= x < hi));
    }
}

/// The two contents agree on the blocks `[lo, hi)`.
pub open spec fn same_blocks(
    a: Map<u64, Seq<u8>>,
    b: Map<u64, Seq<u8>>,
    lo: int,
    hi: int,
) -> bool {
    forall|id: u64| lo <= id < hi ==> #[trigger] a[id] == b[id]
}

/// The two contents agree on every block outside `[lo, hi)`.
pub open spec fn same_outside(
    a: Map<u64, Seq<u8>>,
    b: Map<u64, Seq<u8>>,
    lo: int,
    hi: int,
) -> bool {
    forall|id: u64| !(lo <= id < hi) ==> #[trigger] a[id] == b[id]
}

} // verus!

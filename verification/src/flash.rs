//! SPI-flash-backed [`BlockDevice`] support.
//!
//! NOR flash cannot overwrite in place: a sector must be erased (all bits
//! to 1) before programming (which only clears bits, 1 → 0). [`Flash`] is
//! the tiny hardware trait a board implements, and [`FlashBlockDevice`] is
//! the erase-aware `BlockDevice` over it.
//!
//! The block size equals the flash sector size (4096), so every block
//! write is exactly one sector: erase it, then program it. No
//! read-modify-write and no hidden RAM.
//!
//! # Endurance
//!
//! Every block write costs one sector erase, so wear follows the write
//! pattern of each region (figures assume W25Q-class NOR: 100k P/E
//! cycles, 45-400 ms per 4 KiB erase):
//!
//! - **WAL.** Each durable mutation commits one whole block and moves on,
//!   so a WAL sector is erased once per `wal_blocks` commits. **Group
//!   commit** is the lever: a [`WriteBatch`](crate::batch::WriteBatch) puts
//!   every op that fits one block into a single commit.
//! - **Manifest.** Every flush, compaction output, archive, and ingest
//!   rewrites one manifest copy. A copy ring rotates commits across `N`
//!   copies, multiplying the manifest's life by `N / 2`.
//! - **Tables.** Slots are allocated next-fit from a rotating hint
//!   ([`SlotMap`](crate::slots::SlotMap)), so erases spread across the whole
//!   table region.

use vstd::prelude::*;

use crate::device::BlockDevice;

verus! {

/// The board-level NOR flash primitive.
///
/// All addresses are byte addresses into the flash region this device owns.
/// Implementors talk to the SPI controller; callers never do.
///
/// The flash is modelled by its cells and by the erases made so far. Nothing
/// promises that an operation
/// succeeds; a failed erase or program changes nothing outside the cells it
/// was asked to change.
pub trait Flash: Sized {
    /// The board's error type.
    type Error;

    /// Erase-sector size in bytes. Must equal the `BlockDevice::BLOCK`
    /// used with [`FlashBlockDevice`] (4096 on ESP32-S3).
    const SECTOR: usize;

    /// The bytes of the flash. A verified flash gives its own: with the
    /// default, none, no read, erase or program of a byte may succeed. The
    /// default serves implementations outside verified code, which give no
    /// model.
    open spec fn cells(&self) -> Seq<u8> {
        Seq::empty()
    }

    /// The sectors erased so far, by address. With the default, none, no
    /// erase meets its contract: a verified flash gives its own.
    open spec fn erases(&self) -> Seq<u32> {
        Seq::empty()
    }

    /// Read `buf.len()` bytes from `addr` into `buf`.
    ///
    /// # Errors
    ///
    /// Returns [`Self::Error`] when the range is out of bounds or the
    /// controller reports a failure.
    fn read(&self, addr: u32, buf: &mut [u8]) -> (r: Result<(), Self::Error>)
        ensures
            final(buf)@.len() == old(buf)@.len(),
            r is Ok ==> addr + old(buf)@.len() <= self.cells().len() && final(buf)@
                == self.cells().subrange(addr as int, addr + old(buf)@.len()),
    ;

    /// Erase the sector at `addr` (must be sector-aligned) to `0xFF`.
    ///
    /// # Errors
    ///
    /// Returns [`Self::Error`] on a misaligned address, an out-of-bounds
    /// range, or a controller failure.
    fn erase_sector(&mut self, addr: u32) -> (r: Result<(), Self::Error>)
        ensures
            kept_outside(
                old(self).cells(),
                final(self).cells(),
                addr as int,
                addr + Self::SECTOR,
            ),
            final(self).erases() == old(self).erases().push(addr),
            r is Ok ==> addr + Self::SECTOR <= final(self).cells().len() && forall|i: int|
                addr <= i < addr + Self::SECTOR ==> #[trigger] final(self).cells()[i] == 0xFF,
    ;

    /// Program `data` at `addr`, clearing bits only. Callers erase the
    /// sector first: [`FlashBlockDevice`] always does.
    ///
    /// # Errors
    ///
    /// Returns [`Self::Error`] when any bit would need setting (`0 → 1`),
    /// the range is out of bounds, or the controller reports a failure.
    fn program(&mut self, addr: u32, data: &[u8]) -> (r: Result<(), Self::Error>)
        ensures
            kept_outside(
                old(self).cells(),
                final(self).cells(),
                addr as int,
                addr + data@.len(),
            ),
            final(self).erases() == old(self).erases(),
            r is Ok ==> addr + data@.len() <= final(self).cells().len() && forall|i: int|
                0 <= i < data@.len() ==> {
                    &&& #[trigger] final(self).cells()[addr + i] == old(self).cells()[addr + i]
                        & data@[i]
                    &&& bits_only_clear(old(self).cells()[addr + i], data@[i])
                },
    ;
}

/// Writing `new_cell` over `old_cell` sets no bit.
pub open spec fn bits_only_clear(old_cell: u8, new_cell: u8) -> bool {
    old_cell & new_cell == new_cell
}

/// The cells outside `[lo, hi)` are the same.
pub open spec fn kept_outside(a: Seq<u8>, b: Seq<u8>, lo: int, hi: int) -> bool {
    &&& a.len() == b.len()
    &&& forall|i: int| 0 <= i < a.len() && !(lo <= i < hi) ==> #[trigger] b[i] == a[i]
}

/// Error from [`FlashBlockDevice`]: either the board's flash error or an
/// addressing bug caught before touching hardware.
#[derive(Debug, Clone, Copy, PartialEq, Eq)]
pub enum FlashError<E> {
    /// The board's flash primitive failed.
    Device(E),
    /// Block id outside the device's range.
    BlockOutOfRange {
        /// The offending block id.
        id: u64,
    },
    /// Address arithmetic overflowed `u32`.
    AddrOverflow,
}

/// A [`BlockDevice`] over NOR flash: owns `N` consecutive sectors starting
/// at `base` (a byte address, sector-aligned).
///
/// `BLOCK` must equal `F::SECTOR`, as [`new`](Self::new) asks.
/// `write_block` erases the sector then programs it. `flush` is a no-op:
/// programmed flash is durable.
pub struct FlashBlockDevice<F: Flash, const BLOCK: usize, const N: usize> {
    flash: F,
    base: u32,
}

/// The byte address of a block, or why it has none.
pub open spec fn block_addr<E>(base: u32, block: usize, n: usize, id: u64) -> Result<
    u32,
    FlashError<E>,
> {
    if id >= n {
        Err(FlashError::BlockOutOfRange { id })
    } else if base + id * block > u32::MAX {
        Err(FlashError::AddrOverflow)
    } else {
        Ok((base + id * block) as u32)
    }
}

/// Every block in range has the address of its own sector, counted from the
/// base, and blocks share no byte; the last block whose address fits is
/// still served, and a block out of range is named.
pub proof fn law_block_addrs<E>(base: u32, block: usize, n: usize, i: u64, j: u64)
    ensures
        i < n && base + i * block <= 0xFFFF_FFFF ==> block_addr::<E>(base, block, n, i) == Ok::<
            u32,
            FlashError<E>,
        >((base + i * block) as u32),
        i < n && base + i * block > 0xFFFF_FFFF ==> block_addr::<E>(base, block, n, i) == Err::<
            u32,
            FlashError<E>,
        >(FlashError::AddrOverflow),
        i >= n ==> block_addr::<E>(base, block, n, i) == Err::<u32, FlashError<E>>(
            FlashError::BlockOutOfRange { id: i },
        ),
        i < j ==> (block_addr::<E>(base, block, n, i) matches Ok(a) ==> (block_addr::<E>(
            base,
            block,
            n,
            j,
        ) matches Ok(b) ==> a + block <= b)),
{
    if i < j {
        assert(i * block + block <= j * block) by (nonlinear_arith)
            requires
                i < j,
                block >= 0,
        ;
    }
}

impl<F: Flash, const BLOCK: usize, const N: usize> FlashBlockDevice<F, BLOCK, N> {
    /// The flash behind the device.
    pub closed spec fn cells(&self) -> Seq<u8> {
        self.flash.cells()
    }

    /// The sectors erased so far.
    pub closed spec fn erases(&self) -> Seq<u32> {
        self.flash.erases()
    }

    /// The byte address of block 0.
    pub closed spec fn base(&self) -> u32 {
        self.base
    }

    /// The bytes of block `id`, empty where the device has none.
    pub open spec fn block_at(&self, id: u64) -> Seq<u8> {
        match block_addr::<F::Error>(self.base(), F::SECTOR, N, id) {
            Ok(a) => if a + F::SECTOR <= self.cells().len() {
                self.cells().subrange(a as int, a + F::SECTOR)
            } else {
                Seq::empty()
            },
            Err(_) => Seq::empty(),
        }
    }

    /// Owns sectors `[base, base + N * BLOCK)` of `flash`. A `base` that is
    /// not sector-aligned, or a `BLOCK` that is not the sector size, is a
    /// board-configuration bug.
    pub fn new(flash: F, base: u32) -> (r: Self)
        requires
            F::SECTOR > 0,
            base as int % F::SECTOR as int == 0,
            BLOCK == F::SECTOR,
        ensures
            r.cells() == flash.cells(),
            r.erases() == flash.erases(),
            r.base() == base,
    {
        FlashBlockDevice { flash, base }
    }

    /// Byte address of block `id`, or the addressing error.
    fn addr_of(&self, id: u64) -> (r: Result<u32, FlashError<F::Error>>)
        ensures
            r == block_addr::<F::Error>(self.base(), F::SECTOR, N, id),
    {
        if id >= N as u64 {
            return Err(FlashError::BlockOutOfRange { id });
        }
        let off: u64 = match id.checked_mul(F::SECTOR as u64) {
            Some(off) => off,
            None => {
                return Err(FlashError::AddrOverflow);
            },
        };
        match off.checked_add(self.base as u64) {
            Some(addr) => if addr <= u32::MAX as u64 {
                Ok(addr as u32)
            } else {
                Err(FlashError::AddrOverflow)
            },
            None => Err(FlashError::AddrOverflow),
        }
    }

    /// What a change inside one sector leaves of the other blocks.
    proof fn lemma_others(a: &Self, b: &Self, id: u64, other: u64, at: u32)
        requires
            b.base() == a.base(),
            block_addr::<F::Error>(a.base(), F::SECTOR, N, id) == Ok::<u32, FlashError<F::Error>>(at),
            kept_outside(a.cells(), b.cells(), at as int, at + F::SECTOR),
            other != id,
        ensures
            b.block_at(other) == a.block_at(other),
    {
        match block_addr::<F::Error>(a.base(), F::SECTOR, N, other) {
            Ok(o) => {
                assert(o + F::SECTOR <= at || at + F::SECTOR <= o) by (nonlinear_arith)
                    requires
                        o == a.base() + other * F::SECTOR,
                        at == a.base() + id * F::SECTOR,
                        other != id,
                ;
                if o + F::SECTOR <= a.cells().len() {
                    assert(b.cells().subrange(o as int, o + F::SECTOR) =~= a.cells().subrange(
                        o as int,
                        o + F::SECTOR,
                    ));
                }
            },
            Err(_) => {},
        }
    }
}

impl<F: Flash, const BLOCK: usize, const N: usize> BlockDevice for FlashBlockDevice<F, BLOCK, N> {
    type Error = FlashError<F::Error>;

    const BLOCK: usize = F::SECTOR;

    open spec fn content(&self) -> Map<u64, Seq<u8>> {
        Map::new(|id: u64| true, |id: u64| self.block_at(id))
    }

    fn read_block(&self, id: u64, buf: &mut [u8]) -> (r: Result<(), Self::Error>)
        ensures
            match block_addr::<F::Error>(self.base(), F::SECTOR, N, id) {
                Ok(_) => r matches Err(e) ==> e is Device,
                Err(e) => r == Err::<(), FlashError<F::Error>>(e) && final(buf)@ == old(buf)@,
            },
    {
        match self.addr_of(id) {
            Ok(a) => match self.flash.read(a, buf) {
                Ok(()) => Ok(()),
                Err(e) => Err(FlashError::Device(e)),
            },
            Err(e) => Err(e),
        }
    }

    fn write_block(&mut self, id: u64, buf: &[u8]) -> (r: Result<(), Self::Error>)
        ensures
            match block_addr::<F::Error>(old(self).base(), F::SECTOR, N, id) {
                Ok(at) => {
                    &&& r matches Err(e) ==> e is Device
                    &&& final(self).base() == old(self).base()
                    &&& final(self).erases() == old(self).erases().push(at)
                },
                Err(e) => r == Err::<(), FlashError<F::Error>>(e) && *final(self) == *old(self),
            },
    {
        let ghost a = *self;
        let r: Result<(), FlashError<F::Error>> = match self.addr_of(id) {
            Ok(at) => match self.flash.erase_sector(at) {
                Ok(()) => {
                    let ghost blank = self.flash.cells();
                    match self.flash.program(at, buf) {
                        Ok(()) => {
                            proof {
                                let cells = self.flash.cells();
                                assert forall|i: int| 0 <= i < buf@.len() implies #[trigger] cells[at
                                    + i] == buf@[i] by {
                                    let b = buf@[i];
                                    assert(blank[at + i] == 0xFF);
                                    assert(0xFFu8 & b == b) by (bit_vector);
                                }
                                let part = cells.subrange(at as int, at + F::SECTOR);
                                assert forall|i: int| 0 <= i < part.len() implies part[i]
                                    == #[trigger] buf@[i] by {
                                    assert(cells[at + i] == buf@[i]);
                                }
                                assert(part =~= buf@);
                            }
                            Ok(())
                        },
                        Err(e) => Err(FlashError::Device(e)),
                    }
                },
                Err(e) => Err(FlashError::Device(e)),
            },
            Err(e) => Err(e),
        };
        proof {
            assert forall|other: u64| other != id implies self.block_at(other) == #[trigger] a.block_at(
                other,
            ) by {
                match block_addr::<F::Error>(a.base(), F::SECTOR, N, id) {
                    Ok(at) => {
                        Self::lemma_others(&a, self, id, other, at);
                    },
                    Err(_) => {},
                }
            }
            assert(self.content() =~= a.content().insert(id, self.content()[id]));
        }
        r
    }

    fn flush(&mut self) -> (r: Result<(), Self::Error>)
        ensures
            r is Ok,
            *final(self) == *old(self),
    {
        // Programmed NOR flash is durable; nothing to flush.
        Ok(())
    }
}

} // verus!

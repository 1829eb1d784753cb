//! ESP32-S3 SPI flash driver over the `SPI_MEM` peripheral.
//!
//! The register programming that drives an actual NOR chip through SPI1.
//! The driver is generic over [`RegBus`] (register read/write), so the
//! half-dozen lines of volatile MMIO live in the board crate.
//!
//! Register map and command sequences follow ESP-IDF v5.2's low-level
//! layer (`spimem_flash_ll.h` and `spi_flash_hal_iram.c`), not the TRM
//! prose:
//!
//! - erase: `WREN` → `ADDR` → save `CTRL` / `CTRL = 0` → dedicated
//!   `FLASH_SE` bit → spin on its self-clear → restore `CTRL` → `RDSR`,
//!   poll `WIP`.
//! - program: `WREN`, then per chunk (at most 64 bytes, the `W0`-`W15`
//!   buffer, and never crossing a 256-byte page) `ADDR` with the length
//!   in bits 31:24, words into `W0`.., `usr_dummy = 0`, dedicated
//!   `FLASH_PP` bit → spin → poll `WIP`.
//! - read: user-mode `0x03` transactions (command + 24-bit address +
//!   MISO phases), at most 64 bytes each. This bypasses the DROM flash
//!   cache, so no cache maintenance is needed after program/erase.
//!
//! Every `WREN` is followed by a `WEL` check
//! ([`SpiError::WriteEnableFailed`]) and every poll is bounded
//! ([`SpiError::Timeout`]).

use vstd::prelude::*;

verus! {

/// SPI1 (flash) peripheral base on the ESP32-S3.
pub const SPI1_BASE: usize = 0x6000_2000;

/// `SPI_MEM` register offsets (from `SPI1_BASE`).
pub const REG_CMD: usize = 0x00;

/// `SPI_MEM` register offsets (from `SPI1_BASE`).
pub const REG_ADDR: usize = 0x04;

/// `SPI_MEM` register offsets (from `SPI1_BASE`).
pub const REG_CTRL: usize = 0x08;

/// `SPI_MEM` register offsets (from `SPI1_BASE`).
pub const REG_USER: usize = 0x18;

/// `SPI_MEM` register offsets (from `SPI1_BASE`).
pub const REG_USER1: usize = 0x1C;

/// `SPI_MEM` register offsets (from `SPI1_BASE`).
pub const REG_USER2: usize = 0x20;

/// `SPI_MEM` register offsets (from `SPI1_BASE`).
pub const REG_MISO_DLEN: usize = 0x28;

/// `SPI_MEM` register offsets (from `SPI1_BASE`).
pub const REG_RD_STATUS: usize = 0x2C;

/// First `SPI_MEM` data-buffer register (`W0`-`W15` are consecutive words).
pub const REG_W0: usize = 0x58;

/// `CMD` register command bits: bit 30.
pub const CMD_WREN: u32 = 0x4000_0000;

/// `CMD` register command bits: bit 27.
pub const CMD_RDSR: u32 = 0x0800_0000;

/// `CMD` register command bits: bit 25.
pub const CMD_PP: u32 = 0x0200_0000;

/// `CMD` register command bits: bit 24.
pub const CMD_SE: u32 = 0x0100_0000;

/// `CMD` register command bits: bit 18.
pub const CMD_USR: u32 = 0x0004_0000;

/// Standard SPI "read data" opcode, used for user-mode reads.
pub const OP_READ: u8 = 0x03;

/// `USER` register phase-enable bits: bit 31.
pub const USER_USR_COMMAND: u32 = 0x8000_0000;

/// `USER` register phase-enable bits: bit 30.
pub const USER_USR_ADDR: u32 = 0x4000_0000;

/// `USER` register phase-enable bits: bit 29.
pub const USER_USR_DUMMY: u32 = 0x2000_0000;

/// `USER` register phase-enable bits: bit 28.
pub const USER_USR_MISO: u32 = 0x1000_0000;

/// NOR status-register bits (as reported by `RDSR`): bit 0.
pub const STATUS_WIP: u32 = 1;

/// NOR status-register bits (as reported by `RDSR`): bit 1.
pub const STATUS_WEL: u32 = 2;

/// Bytes per page-program chunk: the `W0`-`W15` buffer holds 16 words.
pub const PP_CHUNK: u32 = 64;

/// NOR page size: one program chunk never crosses a page boundary.
pub const PAGE: u32 = 256;

/// Sector size for register arithmetic.
pub const SECTOR_U32: u32 = 4096;

/// Spin cap for controller-side command completion (ns-µs on silicon).
pub const CMD_SPIN_MAX: u32 = 1_000_000;

/// Cap on `RDSR` polls while `WIP` is set (each poll is one SPI
/// transaction; sector erase is the slow one, up to ~1 s worst case).
pub const WIP_POLL_MAX: u32 = 1_000_000;

/// One register read: what it read, and how many writes came before it.
pub struct ReadV {
    pub after: nat,
    pub offset: usize,
    pub value: u32,
}

/// The register bus the driver talks through, modelled by the accesses made
/// over it. The board crate provides the half-dozen lines of volatile
/// access.
pub trait RegBus: Sized {
    /// The registers written so far, and the values. A verified bus gives
    /// its own: with the default, none, no `write` meets its contract. The
    /// default serves implementations outside verified code, which give no
    /// model.
    open spec fn writes(&self) -> Seq<(usize, u32)> {
        Seq::empty()
    }

    /// The reads made so far. As with [`writes`](RegBus::writes), no `read`
    /// meets its contract with the default.
    open spec fn reads(&self) -> Seq<ReadV> {
        Seq::empty()
    }

    /// Read the 32-bit register at `SPI1_BASE + offset`.
    fn read(&mut self, offset: usize) -> (v: u32)
        ensures
            final(self).writes() == old(self).writes(),
            final(self).reads() == old(self).reads().push(
                (ReadV { after: old(self).writes().len(), offset, value: v }),
            ),
    ;

    /// Write the 32-bit register at `SPI1_BASE + offset`.
    fn write(&mut self, offset: usize, value: u32)
        ensures
            final(self).writes() == old(self).writes().push((offset, value)),
            final(self).reads() == old(self).reads(),
    ;
}

/// Driver errors.
#[derive(Debug, Clone, Copy, PartialEq, Eq, Structural)]
pub enum SpiError {
    /// Address or length outside the owned `[base, base + len)` region,
    /// or address arithmetic overflow.
    OutOfRange,
    /// `erase_sector` address not sector-aligned.
    Misaligned,
    /// A command bit never self-cleared, or `WIP` never cleared.
    Timeout,
    /// `WREN` did not set the chip's write-enable latch.
    WriteEnableFailed,
}

impl SpiError {
    /// What went wrong, in words.
    #[must_use]
    pub fn message(&self) -> (r: &'static str)
        ensures
            r@ == (match self {
                SpiError::OutOfRange => "address outside the owned flash region"@,
                SpiError::Misaligned => "erase address not sector-aligned"@,
                SpiError::Timeout => "SPI flash command timed out"@,
                SpiError::WriteEnableFailed => "WREN did not set the write-enable latch"@,
            }),
    {
        match self {
            SpiError::OutOfRange => "address outside the owned flash region",
            SpiError::Misaligned => "erase address not sector-aligned",
            SpiError::Timeout => "SPI flash command timed out",
            SpiError::WriteEnableFailed => "WREN did not set the write-enable latch",
        }
    }
}

/// The last read was of register `offset`, after every write so far, with
/// the bit as said.
pub open spec fn last_read<B: RegBus>(b: &B, offset: usize, bit: u32, set: bool) -> bool {
    &&& b.reads().len() > 0
    &&& b.reads().last().offset == offset
    &&& b.reads().last().after == b.writes().len()
    &&& (b.reads().last().value & bit != 0) == set
}

/// The command last written never cleared: `CMD_SPIN_MAX` reads in a row
/// saw its bit.
pub open spec fn cmd_stuck<B: RegBus>(b: &B) -> bool {
    let n = b.reads().len();
    &&& b.writes().len() > 0
    &&& b.writes().last().0 == REG_CMD
    &&& n >= CMD_SPIN_MAX
    &&& forall|i: int|
        n - CMD_SPIN_MAX <= i < n ==> {
            &&& (#[trigger] b.reads()[i]).offset == REG_CMD
            &&& b.reads()[i].after == b.writes().len()
            &&& b.reads()[i].value & b.writes().last().1 != 0
        }
}

/// A status read after the first `k` writes saw `WIP`.
pub open spec fn busy_after<B: RegBus>(b: &B, k: nat) -> bool {
    exists|i: int|
        0 <= i < b.reads().len() && (#[trigger] b.reads()[i]).offset == REG_RD_STATUS
            && b.reads()[i].after == k && b.reads()[i].value & STATUS_WIP != 0
}

/// The chip stayed busy: the last `WIP_POLL_MAX` writes were status polls,
/// and each saw `WIP`.
pub open spec fn wip_stuck<B: RegBus>(b: &B) -> bool {
    let n = b.writes().len();
    &&& n >= WIP_POLL_MAX
    &&& forall|k: nat|
        n - WIP_POLL_MAX < k <= n ==> {
            &&& b.writes()[k - 1] == (REG_CMD, CMD_RDSR)
            &&& #[trigger] busy_after(b, k)
        }
}

/// Why an operation that began after `w0` failed: what the bus answered.
pub open spec fn fault_seen<B: RegBus>(w0: Seq<(usize, u32)>, b: &B, e: SpiError) -> bool {
    match e {
        SpiError::Timeout => {
            ||| b.writes().len() > w0.len() && cmd_stuck(b)
            ||| b.writes().len() >= w0.len() + WIP_POLL_MAX && wip_stuck(b)
        },
        SpiError::WriteEnableFailed => {
            &&& b.writes().len() >= w0.len() + 2
            &&& b.writes().last() == (REG_CMD, CMD_RDSR)
            &&& last_read(b, REG_RD_STATUS, STATUS_WEL, false)
        },
        _ => false,
    }
}

/// `n` status polls.
pub open spec fn status_polls(n: nat) -> Seq<(usize, u32)> {
    Seq::new(n, |i: int| (REG_CMD, CMD_RDSR))
}

/// The status was polled, once or more.
pub open spec fn polled(w0: Seq<(usize, u32)>, w1: Seq<(usize, u32)>) -> bool {
    exists|n: nat| 1 <= n <= WIP_POLL_MAX && w1 == w0 + #[trigger] status_polls(n)
}

/// What enabling writes does to the registers.
pub open spec fn enable_writes() -> Seq<(usize, u32)> {
    seq![(REG_CMD, CMD_WREN), (REG_CMD, CMD_RDSR)]
}

/// What erasing a sector does to the registers: `ctrl` is the control
/// register's value, saved and restored, and `n` the status polls.
pub open spec fn erase_writes(addr: u32, ctrl: u32, n: nat) -> Seq<(usize, u32)> {
    enable_writes() + seq![
        (REG_ADDR, addr),
        (REG_CTRL, 0u32),
        (REG_CMD, CMD_SE),
        (REG_CTRL, ctrl),
    ] + status_polls(n)
}

/// Byte `j` of a chunk as it stands in a word, zero past the chunk's end.
pub open spec fn lane(data: Seq<u8>, j: int) -> u32 {
    if 0 <= j < data.len() {
        data[j] as u32
    } else {
        0
    }
}

/// Word `w` of a chunk, lowest byte first.
pub open spec fn word_of(data: Seq<u8>, w: int) -> u32 {
    lane(data, 4 * w) | (lane(data, 4 * w + 1) << 8u32) | (lane(data, 4 * w + 2) << 16u32) | (lane(
        data,
        4 * w + 3,
    ) << 24u32)
}

/// The words of a chunk into the data buffer.
pub open spec fn word_writes(data: Seq<u8>, n: nat) -> Seq<(usize, u32)> {
    Seq::new(n, |w: int| ((REG_W0 + 4 * w) as usize, word_of(data, w)))
}

/// Words that hold `n` bytes.
pub open spec fn words_for(n: int) -> nat {
    ((n + 3) / 4) as nat
}

/// What programming one chunk does to the registers: `user` is the user
/// register's value, and `n` the status polls.
pub open spec fn chunk_writes(addr: u32, data: Seq<u8>, user: u32, n: nat) -> Seq<(usize, u32)> {
    enable_writes() + seq![
        (REG_ADDR, (addr & 0x00FF_FFFFu32) | ((data.len() as u32) << 24u32)),
    ] + word_writes(data, words_for(data.len() as int)) + seq![
        (REG_USER, user & !USER_USR_DUMMY),
        (REG_CMD, CMD_PP),
    ] + status_polls(n)
}

/// After the second write the write-enable latch was seen set.
pub open spec fn latch_seen(t0: TraceV, t1: TraceV) -> bool {
    exists|status: u32|
        status & STATUS_WEL != 0 && #[trigger] t1.seen_at(
            t0.writes.len() + 2,
            REG_RD_STATUS,
            status,
        )
}

/// Before anything was written after write `k`, a command, its bit was seen
/// clear.
pub open spec fn clear_seen(t: TraceV, k: nat) -> bool {
    exists|value: u32|
        value & t.writes[k - 1].1 == 0 && #[trigger] t.seen_at(k, REG_CMD, value)
}

/// Each command written since `t0` was seen clear before the next write.
pub open spec fn commands_cleared(t0: TraceV, t1: TraceV) -> bool {
    forall|k: nat|
        t0.writes.len() < k <= t1.writes.len() && t1.writes[k - 1].0 == REG_CMD
            ==> #[trigger] clear_seen(t1, k)
}

/// A chunk was programmed: the latch was seen, the user register written
/// back is the one that was read after the words, each command was waited
/// for, and the chip polled some number of times.
pub open spec fn chunk_done(t0: TraceV, t1: TraceV, addr: u32, data: Seq<u8>) -> bool {
    &&& t1.extends(t0)
    &&& latch_seen(t0, t1)
    &&& commands_cleared(t0, t1)
    &&& exists|user: u32, n: nat|
        1 <= n <= WIP_POLL_MAX && t1.writes == t0.writes + #[trigger] chunk_writes(
            addr,
            data,
            user,
            n,
        ) && t1.seen_at(
            t0.writes.len() + 3 + words_for(data.len() as int),
            REG_USER,
            user,
        )
}

/// A sector was erased: the latch was seen, the control register written
/// back is the one that was read after the address, each command was waited
/// for, and the chip polled some number of times.
pub open spec fn sector_done(t0: TraceV, t1: TraceV, addr: u32) -> bool {
    &&& t1.extends(t0)
    &&& latch_seen(t0, t1)
    &&& commands_cleared(t0, t1)
    &&& exists|ctrl: u32, n: nat|
        1 <= n <= WIP_POLL_MAX && t1.writes == t0.writes + #[trigger] erase_writes(
            addr,
            ctrl,
            n,
        ) && t1.seen_at(t0.writes.len() + 3, REG_CTRL, ctrl)
}

/// The registers went some way through programming a chunk.
pub open spec fn chunk_begun(
    w0: Seq<(usize, u32)>,
    w1: Seq<(usize, u32)>,
    addr: u32,
    data: Seq<u8>,
) -> bool {
    exists|user: u32, n: nat, k: int|
        n <= WIP_POLL_MAX && 0 <= k <= chunk_writes(addr, data, user, n).len() && w1 == w0
            + #[trigger] chunk_writes(addr, data, user, n).take(k)
}

/// The registers went some way through erasing a sector.
pub open spec fn sector_begun(w0: Seq<(usize, u32)>, w1: Seq<(usize, u32)>, addr: u32) -> bool {
    exists|ctrl: u32, n: nat, k: int|
        n <= WIP_POLL_MAX && 0 <= k <= erase_writes(addr, ctrl, n).len() && w1 == w0
            + #[trigger] erase_writes(addr, ctrl, n).take(k)
}

/// The registers went some way through programming `data` at `addr`: whole
/// chunks up to some byte, then a part of the next.
pub open spec fn program_begun(
    t0: TraceV,
    w1: Seq<(usize, u32)>,
    addr: u32,
    data: Seq<u8>,
) -> bool {
    exists|marks: Seq<(int, TraceV)>, done: int|
        {
            &&& 0 <= done < data.len()
            &&& #[trigger] programmed(marks, addr, data, done)
            &&& marks[0].1 == t0
            &&& chunk_begun(
                marks.last().1.writes,
                w1,
                (addr + done) as u32,
                data.subrange(done, done + chunk_len(addr + done, data.len() - done)),
            )
        }
}

/// The first `done` bytes were programmed chunk by chunk, `marks` being the
/// accesses up to the chunks' ends.
pub open spec fn programmed(
    marks: Seq<(int, TraceV)>,
    addr: u32,
    data: Seq<u8>,
    done: int,
) -> bool {
    &&& marks.len() >= 1
    &&& marks[0].0 == 0
    &&& marks.last().0 == done
    &&& forall|i: int|
        0 <= i < marks.len() - 1 ==> {
            let at = (#[trigger] marks[i]).0;
            let k = chunk_len(addr + at, data.len() - at);
            &&& 0 <= at < data.len()
            &&& marks[i + 1].0 == at + k
            &&& chunk_done(
                marks[i].1,
                marks[i + 1].1,
                (addr + at) as u32,
                data.subrange(at, at + k),
            )
        }
}

/// The accesses from `t0` to `t1` programmed `data` at `addr`.
pub open spec fn program_done(t0: TraceV, t1: TraceV, addr: u32, data: Seq<u8>) -> bool {
    exists|marks: Seq<(int, TraceV)>| #[trigger]
        programmed(marks, addr, data, data.len() as int) && marks[0].1 == t0 && marks.last().1
            == t1
}

/// One more chunk was programmed.
proof fn lemma_programmed_push(
    marks: Seq<(int, TraceV)>,
    addr: u32,
    data: Seq<u8>,
    done: int,
    t1: TraceV,
)
    requires
        programmed(marks, addr, data, done),
        0 <= done < data.len(),
        ({
            let k = chunk_len(addr + done, data.len() - done);
            chunk_done(marks.last().1, t1, (addr + done) as u32, data.subrange(done, done + k))
        }),
    ensures
        programmed(
            marks.push((done + chunk_len(addr + done, data.len() - done), t1)),
            addr,
            data,
            done + chunk_len(addr + done, data.len() - done),
        ),
{
    let m = marks.push((done + chunk_len(addr + done, data.len() - done), t1));
    assert forall|i: int| 0 <= i < m.len() - 1 implies ({
        let at = (#[trigger] m[i]).0;
        let k = chunk_len(addr + at, data.len() - at);
        &&& 0 <= at < data.len()
        &&& m[i + 1].0 == at + k
        &&& chunk_done(m[i].1, m[i + 1].1, (addr + at) as u32, data.subrange(at, at + k))
    }) by {
        if i < marks.len() - 1 {
            assert(m[i] == marks[i]);
            assert(m[i + 1] == marks[i + 1]);
        } else {
            assert(m[i] == marks.last());
        }
    }
}

// ---------------------------------------------------------------------
// Every access in its order.

/// The accesses made over a bus.
#[verifier::ext_equal]
pub struct TraceV {
    pub writes: Seq<(usize, u32)>,
    pub reads: Seq<ReadV>,
}

/// Why an operation failed, if it did.
pub open spec fn fault(r: Result<(), SpiError>) -> Option<SpiError> {
    match r {
        Ok(()) => None,
        Err(e) => Some(e),
    }
}

/// The accesses made over `b`.
pub open spec fn trace<B: RegBus>(b: &B) -> TraceV {
    TraceV { writes: b.writes(), reads: b.reads() }
}

impl TraceV {
    /// Then registers were written.
    pub open spec fn wrote(self, ws: Seq<(usize, u32)>) -> TraceV {
        TraceV { writes: self.writes + ws, reads: self.reads }
    }

    /// Then registers were read: which, and what they held.
    pub open spec fn saw(self, rs: Seq<(usize, u32)>) -> TraceV {
        TraceV {
            writes: self.writes,
            reads: self.reads + Seq::new(
                rs.len(),
                |i: int| ReadV { after: self.writes.len(), offset: rs[i].0, value: rs[i].1 },
            ),
        }
    }

    /// Some read since the first `k` writes, and before the next one, saw
    /// `value` in a register.
    pub open spec fn seen_at(self, k: nat, offset: usize, value: u32) -> bool {
        self.reads.contains(ReadV { after: k, offset, value })
    }

    /// The accesses began with those of `o`.
    pub open spec fn extends(self, o: TraceV) -> bool {
        o.writes.is_prefix_of(self.writes) && o.reads.is_prefix_of(self.reads)
    }
}

/// Reads of the command register, with these values.
pub open spec fn spins(vs: Seq<u32>) -> Seq<(usize, u32)> {
    Seq::new(vs.len(), |i: int| (REG_CMD, vs[i]))
}

/// The command bit was seen until it was seen clear.
pub open spec fn cleared(vs: Seq<u32>, bit: u32) -> bool {
    &&& 1 <= vs.len() <= CMD_SPIN_MAX
    &&& forall|i: int| 0 <= i < vs.len() - 1 ==> #[trigger] vs[i] & bit != 0
    &&& vs.last() & bit == 0
}

/// The command bit was seen as often as it is waited for.
pub open spec fn stuck(vs: Seq<u32>, bit: u32) -> bool {
    &&& vs.len() == CMD_SPIN_MAX
    &&& forall|i: int| 0 <= i < vs.len() ==> #[trigger] vs[i] & bit != 0
}

/// A command was waited for.
pub open spec fn waited(t0: TraceV, t1: TraceV, bit: u32, e: Option<SpiError>) -> bool {
    match e {
        None => exists|vs: Seq<u32>| #[trigger] cleared(vs, bit) && t1 == t0.saw(spins(vs)),
        Some(SpiError::Timeout) => exists|vs: Seq<u32>| #[trigger]
            stuck(vs, bit) && t1 == t0.saw(spins(vs)),
        Some(_) => false,
    }
}

/// A command was written, then waited for.
pub open spec fn commanded(t0: TraceV, t1: TraceV, bit: u32, e: Option<SpiError>) -> bool {
    waited(t0.wrote(seq![(REG_CMD, bit)]), t1, bit, e)
}

/// The status register was fetched: `status` is what it held.
pub open spec fn fetched(t0: TraceV, t1: TraceV, status: u32) -> bool {
    exists|m: TraceV| #[trigger]
        commanded(t0, m, CMD_RDSR, None) && t1 == m.saw(seq![(REG_RD_STATUS, status)])
}

/// `WREN`, waited for; then the status, and the latch in it decides.
pub open spec fn enabled(t0: TraceV, t1: TraceV, e: Option<SpiError>) -> bool {
    ||| e is Some && commanded(t0, t1, CMD_WREN, e)
    ||| exists|m: TraceV| #[trigger] commanded(t0, m, CMD_WREN, None) && latched(m, t1, e)
}

/// The status was fetched, and its latch bit decides.
pub open spec fn latched(t0: TraceV, t1: TraceV, e: Option<SpiError>) -> bool {
    ||| e is Some && commanded(t0, t1, CMD_RDSR, e)
    ||| exists|status: u32| #[trigger]
        fetched(t0, t1, status) && e == (if status & STATUS_WEL == 0 {
            Some(SpiError::WriteEnableFailed)
        } else {
            None
        })
}

/// The status was fetched until the chip was seen idle, `left` times at
/// most.
pub open spec fn idled(t0: TraceV, t1: TraceV, left: nat, e: Option<SpiError>) -> bool
    decreases left,
{
    left > 0 && {
        ||| e is Some && commanded(t0, t1, CMD_RDSR, e)
        ||| exists|m: TraceV, status: u32| #[trigger]
            fetched(t0, m, status) && (if status & STATUS_WIP == 0 {
                e is None && t1 == m
            } else if left == 1 {
                e == Some(SpiError::Timeout) && t1 == m
            } else {
                idled(m, t1, (left - 1) as nat, e)
            })
    }
}

/// A sector was erased, or why not: the latch is set and seen, `CTRL` is
/// read, cleared for the erase, and written back once the erase command has
/// cleared; then the chip is waited for.
pub open spec fn erased(t0: TraceV, t1: TraceV, addr: u32, e: Option<SpiError>) -> bool {
    ||| e is Some && enabled(t0, t1, e)
    ||| exists|m: TraceV, ctrl: u32| #[trigger]
        sector_set(t0, m, addr, ctrl) && {
            ||| e is Some && commanded(m, t1, CMD_SE, e)
            ||| exists|s: TraceV| #[trigger]
                commanded(m, s, CMD_SE, None) && idled(
                    s.wrote(seq![(REG_CTRL, ctrl)]),
                    t1,
                    WIP_POLL_MAX as nat,
                    e,
                )
        }
}

/// Up to the erase command: `ctrl` is what `CTRL` held.
pub open spec fn sector_set(t0: TraceV, t1: TraceV, addr: u32, ctrl: u32) -> bool {
    exists|m: TraceV| #[trigger]
        enabled(t0, m, None) && t1 == m.wrote(seq![(REG_ADDR, addr)]).saw(
            seq![(REG_CTRL, ctrl)],
        ).wrote(seq![(REG_CTRL, 0u32)])
}

/// A chunk was programmed, or why not: the latch is set and seen, address,
/// length and words are written, `USER` is read and written back without
/// its dummy phase; then the program command, and the chip is waited for.
pub open spec fn chunk_run(
    t0: TraceV,
    t1: TraceV,
    addr: u32,
    data: Seq<u8>,
    e: Option<SpiError>,
) -> bool {
    ||| e is Some && enabled(t0, t1, e)
    ||| exists|m: TraceV, user: u32| #[trigger]
        chunk_set(t0, m, addr, data, user) && {
            ||| e is Some && commanded(m, t1, CMD_PP, e)
            ||| exists|s: TraceV| #[trigger]
                commanded(m, s, CMD_PP, None) && idled(s, t1, WIP_POLL_MAX as nat, e)
        }
}

/// Up to the program command: `user` is what `USER` held.
pub open spec fn chunk_set(t0: TraceV, t1: TraceV, addr: u32, data: Seq<u8>, user: u32) -> bool {
    exists|m: TraceV| #[trigger]
        enabled(t0, m, None) && t1 == m.wrote(
            seq![(REG_ADDR, (addr & 0x00FF_FFFFu32) | ((data.len() as u32) << 24u32))]
                + word_writes(data, words_for(data.len() as int)),
        ).saw(seq![(REG_USER, user)]).wrote(seq![(REG_USER, user & !USER_USR_DUMMY)])
}

/// The bytes from `done` on were programmed chunk by chunk, or why not.
pub open spec fn program_run(
    t0: TraceV,
    t1: TraceV,
    addr: u32,
    data: Seq<u8>,
    done: int,
    e: Option<SpiError>,
) -> bool
    decreases data.len() - done,
{
    if done >= data.len() {
        e is None && t1 == t0
    } else {
        let k = chunk_len(addr + done, data.len() - done);
        let part = data.subrange(done, done + k);
        let at = (addr + done) as u32;
        ||| e is Some && chunk_run(t0, t1, at, part, e)
        ||| exists|m: TraceV| #[trigger]
            chunk_run(t0, m, at, part, None) && program_run(m, t1, addr, data, done + k, e)
    }
}

/// Up to the read command of `n` bytes at `addr`.
pub open spec fn read_set(t0: TraceV, addr: u32, n: u32) -> TraceV {
    t0.wrote(read_writes(addr, n).drop_last())
}

/// Reads of the data buffer, with these words.
pub open spec fn word_reads(words: Seq<u32>) -> Seq<(usize, u32)> {
    Seq::new(words.len(), |w: int| ((REG_W0 + 4 * w) as usize, words[w]))
}

/// `out` is the bytes of the words, lowest first.
pub open spec fn unpacked(words: Seq<u32>, out: Seq<u8>) -> bool {
    &&& words.len() == words_for(out.len() as int)
    &&& forall|j: int| 0 <= j < out.len() ==> #[trigger] out[j] == byte_of(words[j / 4], j % 4)
}

/// One user-mode read into `out`, or why not: the words are read once the
/// command has cleared.
pub open spec fn fetched_bytes(
    t0: TraceV,
    t1: TraceV,
    addr: u32,
    out: Seq<u8>,
    e: Option<SpiError>,
) -> bool {
    let s = read_set(t0, addr, out.len() as u32);
    ||| e is Some && commanded(s, t1, CMD_USR, e)
    ||| e is None && exists|m: TraceV, words: Seq<u32>| #[trigger]
        commanded(s, m, CMD_USR, None) && #[trigger] unpacked(words, out) && t1 == m.saw(
            word_reads(words),
        )
}

/// How many of the `left` bytes one read takes.
pub open spec fn read_len(left: int) -> int {
    if left < PP_CHUNK {
        left
    } else {
        PP_CHUNK as int
    }
}

/// The bytes from `done` on were read chunk by chunk into `b1`, or why not:
/// what was not read is still as in `b0`.
pub open spec fn read_run(
    t0: TraceV,
    t1: TraceV,
    addr: u32,
    b0: Seq<u8>,
    b1: Seq<u8>,
    done: int,
    e: Option<SpiError>,
) -> bool
    decreases b1.len() - done,
{
    if done >= b1.len() {
        e is None && t1 == t0
    } else {
        let n = read_len(b1.len() - done);
        let at = (addr + done) as u32;
        let part = b1.subrange(done, done + n);
        ||| e is Some && fetched_bytes(t0, t1, at, part, e) && b1.skip(done) == b0.skip(done)
        ||| exists|m: TraceV| #[trigger]
            fetched_bytes(t0, m, at, part, None) && read_run(m, t1, addr, b0, b1, done + n, e)
    }
}

/// What was seen stays seen.
proof fn lemma_seen_on(a: TraceV, b: TraceV, k: nat, offset: usize, value: u32)
    requires
        b.extends(a),
        a.seen_at(k, offset, value),
    ensures
        b.seen_at(k, offset, value),
{
    let x = ReadV { after: k, offset, value };
    let i = choose|i: int| 0 <= i < a.reads.len() && a.reads[i] == x;
    assert(b.reads[i] == x);
}

/// Commands waited for in two stretches were waited for in both.
proof fn lemma_grown(a: TraceV, b: TraceV, c: TraceV)
    requires
        b.extends(a),
        c.extends(b),
        commands_cleared(a, b),
        commands_cleared(b, c),
    ensures
        c.extends(a),
        commands_cleared(a, c),
{
    assert forall|k: nat|
        a.writes.len() < k <= c.writes.len() && c.writes[k - 1].0
            == REG_CMD implies #[trigger] clear_seen(c, k) by {
        if k <= b.writes.len() {
            assert(b.writes[k - 1] == c.writes[k - 1]);
            assert(clear_seen(b, k));
            let value = choose|value: u32|
                value & b.writes[k - 1].1 == 0 && #[trigger] b.seen_at(k, REG_CMD, value);
            lemma_seen_on(b, c, k, REG_CMD, value);
        }
    }
}

/// Accesses that write no command.
proof fn lemma_quiet(t: TraceV, ws: Seq<(usize, u32)>, rs: Seq<(usize, u32)>)
    requires
        forall|i: int| 0 <= i < ws.len() ==> (#[trigger] ws[i]).0 != REG_CMD,
    ensures
        t.wrote(ws).extends(t),
        commands_cleared(t, t.wrote(ws)),
        t.saw(rs).extends(t),
        commands_cleared(t, t.saw(rs)),
        forall|i: int|
            0 <= i < rs.len() ==> t.saw(rs).seen_at(
                t.writes.len(),
                (#[trigger] rs[i]).0,
                rs[i].1,
            ),
{
    let a = t.wrote(ws);
    assert forall|k: nat|
        t.writes.len() < k <= a.writes.len() && a.writes[k - 1].0
            == REG_CMD implies #[trigger] clear_seen(a, k) by {
        assert(a.writes[k - 1] == ws[k - 1 - t.writes.len()]);
    }
    let b = t.saw(rs);
    assert forall|i: int| 0 <= i < rs.len() implies b.seen_at(
        t.writes.len(),
        (#[trigger] rs[i]).0,
        rs[i].1,
    ) by {
        assert(b.reads[t.reads.len() + i] == (ReadV {
            after: t.writes.len(),
            offset: rs[i].0,
            value: rs[i].1,
        }));
    }
}

proof fn lemma_commanded(t0: TraceV, t1: TraceV, bit: u32)
    requires
        commanded(t0, t1, bit, None),
    ensures
        t1.extends(t0),
        t1.writes == t0.writes.push((REG_CMD, bit)),
        commands_cleared(t0, t1),
        t1.reads.len() > t0.reads.len(),
        ({
            let last = t1.reads.last();
            last.after == t1.writes.len() && last.offset == REG_CMD && last.value & bit == 0
        }),
{
    let t = t0.wrote(seq![(REG_CMD, bit)]);
    let vs = choose|vs: Seq<u32>| #[trigger] cleared(vs, bit) && t1 == t.saw(spins(vs));
    assert(t.writes =~= t0.writes.push((REG_CMD, bit)));
    let last = ReadV { after: t1.writes.len(), offset: REG_CMD, value: vs.last() };
    assert(spins(vs)[vs.len() - 1] == (REG_CMD, vs.last()));
    assert(t1.reads[t1.reads.len() - 1] == last);
    assert forall|k: nat|
        t0.writes.len() < k <= t1.writes.len() && t1.writes[k - 1].0
            == REG_CMD implies #[trigger] clear_seen(t1, k) by {
        assert(t1.seen_at(k, REG_CMD, vs.last()));
    }
}

proof fn lemma_fetched(t0: TraceV, t1: TraceV, status: u32)
    requires
        fetched(t0, t1, status),
    ensures
        t1.extends(t0),
        t1.writes == t0.writes.push((REG_CMD, CMD_RDSR)),
        commands_cleared(t0, t1),
        t1.seen_at(t1.writes.len(), REG_RD_STATUS, status),
{
    let rs = seq![(REG_RD_STATUS, status)];
    let m = choose|m: TraceV| #[trigger] commanded(t0, m, CMD_RDSR, None) && t1 == m.saw(rs);
    lemma_commanded(t0, m, CMD_RDSR);
    lemma_quiet(m, Seq::empty(), rs);
    assert(rs[0] == (REG_RD_STATUS, status));
    lemma_grown(t0, m, t1);
}

proof fn lemma_enabled(t0: TraceV, t1: TraceV)
    requires
        enabled(t0, t1, None),
    ensures
        t1.extends(t0),
        t1.writes == t0.writes + enable_writes(),
        commands_cleared(t0, t1),
        latch_seen(t0, t1),
{
    let m = choose|m: TraceV| #[trigger] commanded(t0, m, CMD_WREN, None) && latched(m, t1, None);
    let status = choose|status: u32| #[trigger]
        fetched(m, t1, status) && status & STATUS_WEL != 0;
    lemma_commanded(t0, m, CMD_WREN);
    lemma_fetched(m, t1, status);
    lemma_grown(t0, m, t1);
    assert(t1.writes =~= t0.writes + enable_writes());
}

proof fn lemma_idled(t0: TraceV, t1: TraceV, left: nat)
    requires
        idled(t0, t1, left, None),
    ensures
        t1.extends(t0),
        commands_cleared(t0, t1),
        exists|n: nat| 1 <= n <= left && t1.writes == t0.writes + #[trigger] status_polls(n),
    decreases left,
{
    let (m, status) = choose|m: TraceV, status: u32| #[trigger]
        fetched(t0, m, status) && (if status & STATUS_WIP == 0 {
            t1 == m
        } else if left == 1 {
            false
        } else {
            idled(m, t1, (left - 1) as nat, None)
        });
    lemma_fetched(t0, m, status);
    if status & STATUS_WIP == 0 {
        assert(t1.writes =~= t0.writes + status_polls(1));
    } else {
        lemma_idled(m, t1, (left - 1) as nat);
        let n = choose|n: nat|
            1 <= n <= left - 1 && t1.writes == m.writes + #[trigger] status_polls(n);
        lemma_grown(t0, m, t1);
        assert(t1.writes =~= t0.writes + status_polls(n + 1));
    }
}

/// An erase that succeeded saw the latch, restored the control register it
/// read, and waited for each command.
pub proof fn law_erased_done(t0: TraceV, t1: TraceV, addr: u32)
    requires
        erased(t0, t1, addr, None),
    ensures
        sector_done(t0, t1, addr),
{
    let (m, ctrl) = choose|m: TraceV, ctrl: u32| #[trigger]
        sector_set(t0, m, addr, ctrl) && exists|s: TraceV| #[trigger]
            commanded(m, s, CMD_SE, None) && idled(
                s.wrote(seq![(REG_CTRL, ctrl)]),
                t1,
                WIP_POLL_MAX as nat,
                None,
            );
    let s = choose|s: TraceV| #[trigger]
        commanded(m, s, CMD_SE, None) && idled(
            s.wrote(seq![(REG_CTRL, ctrl)]),
            t1,
            WIP_POLL_MAX as nat,
            None,
        );
    let w1 = seq![(REG_ADDR, addr)];
    let r1 = seq![(REG_CTRL, ctrl)];
    let w2 = seq![(REG_CTRL, 0u32)];
    let a = choose|a: TraceV| #[trigger]
        enabled(t0, a, None) && m == a.wrote(w1).saw(r1).wrote(w2);
    lemma_enabled(t0, a);
    let b = a.wrote(w1);
    let c = b.saw(r1);
    lemma_quiet(a, w1, r1);
    lemma_quiet(b, w2, r1);
    assert(r1[0] == (REG_CTRL, ctrl));
    lemma_quiet(c, w2, r1);
    lemma_grown(t0, a, b);
    lemma_grown(t0, b, c);
    lemma_grown(t0, c, m);
    lemma_commanded(m, s, CMD_SE);
    lemma_grown(t0, m, s);
    let d = s.wrote(r1);
    lemma_quiet(s, r1, r1);
    lemma_grown(t0, s, d);
    lemma_idled(d, t1, WIP_POLL_MAX as nat);
    lemma_grown(c, m, s);
    lemma_grown(c, s, d);
    lemma_grown(c, d, t1);
    lemma_grown(t0, d, t1);
    lemma_grown(a, b, c);
    lemma_grown(a, c, t1);
    let n = choose|n: nat|
        1 <= n <= WIP_POLL_MAX && t1.writes == d.writes + #[trigger] status_polls(n);
    assert(t1.writes =~= t0.writes + erase_writes(addr, ctrl, n));
    assert(c.seen_at(b.writes.len(), REG_CTRL, ctrl));
    lemma_seen_on(c, t1, b.writes.len(), REG_CTRL, ctrl);
    let status = choose|status: u32|
        status & STATUS_WEL != 0 && #[trigger] a.seen_at(
            t0.writes.len() + 2,
            REG_RD_STATUS,
            status,
        );
    lemma_seen_on(a, t1, t0.writes.len() + 2, REG_RD_STATUS, status);
}

/// A chunk that was programmed saw the latch, wrote back the user register
/// it read without the dummy phase, and waited for each command.
pub proof fn law_chunk_run_done(t0: TraceV, t1: TraceV, addr: u32, data: Seq<u8>)
    requires
        1 <= data.len() <= PP_CHUNK,
        chunk_run(t0, t1, addr, data, None),
    ensures
        chunk_done(t0, t1, addr, data),
{
    let (m, user) = choose|m: TraceV, user: u32| #[trigger]
        chunk_set(t0, m, addr, data, user) && exists|s: TraceV| #[trigger]
            commanded(m, s, CMD_PP, None) && idled(s, t1, WIP_POLL_MAX as nat, None);
    let s = choose|s: TraceV| #[trigger]
        commanded(m, s, CMD_PP, None) && idled(s, t1, WIP_POLL_MAX as nat, None);
    let words = word_writes(data, words_for(data.len() as int));
    let w1 = seq![(REG_ADDR, (addr & 0x00FF_FFFFu32) | ((data.len() as u32) << 24u32))] + words;
    let r1 = seq![(REG_USER, user)];
    let w2 = seq![(REG_USER, user & !USER_USR_DUMMY)];
    let a = choose|a: TraceV| #[trigger]
        enabled(t0, a, None) && m == a.wrote(w1).saw(r1).wrote(w2);
    lemma_enabled(t0, a);
    assert forall|i: int| 0 <= i < w1.len() implies (#[trigger] w1[i]).0 != REG_CMD by {
        if i > 0 {
            assert(w1[i] == words[i - 1]);
            assert(words[i - 1].0 == REG_W0 + 4 * (i - 1));
        }
    }
    let b = a.wrote(w1);
    let c = b.saw(r1);
    lemma_quiet(a, w1, r1);
    lemma_quiet(b, w2, r1);
    assert(r1[0] == (REG_USER, user));
    lemma_quiet(c, w2, r1);
    lemma_grown(t0, a, b);
    lemma_grown(t0, b, c);
    lemma_grown(t0, c, m);
    lemma_commanded(m, s, CMD_PP);
    lemma_grown(t0, m, s);
    lemma_idled(s, t1, WIP_POLL_MAX as nat);
    lemma_grown(c, m, s);
    lemma_grown(c, s, t1);
    lemma_grown(t0, s, t1);
    lemma_grown(a, b, c);
    lemma_grown(a, c, t1);
    let n = choose|n: nat|
        1 <= n <= WIP_POLL_MAX && t1.writes == s.writes + #[trigger] status_polls(n);
    assert(t1.writes =~= t0.writes + chunk_writes(addr, data, user, n));
    assert(c.seen_at(b.writes.len(), REG_USER, user));
    lemma_seen_on(c, t1, b.writes.len(), REG_USER, user);
    let status = choose|status: u32|
        status & STATUS_WEL != 0 && #[trigger] a.seen_at(
            t0.writes.len() + 2,
            REG_RD_STATUS,
            status,
        );
    lemma_seen_on(a, t1, t0.writes.len() + 2, REG_RD_STATUS, status);
}

/// Data programmed waited for each command, in every chunk.
pub proof fn law_program_waits(t0: TraceV, t1: TraceV, addr: u32, data: Seq<u8>, done: int)
    requires
        0 <= done,
        program_run(t0, t1, addr, data, done, None),
    ensures
        t1.extends(t0),
        commands_cleared(t0, t1),
    decreases data.len() - done,
{
    if done < data.len() {
        let k = chunk_len(addr + done, data.len() - done);
        let part = data.subrange(done, done + k);
        law_chunk_in_page(addr + done, data.len() - done);
        let m = choose|m: TraceV| #[trigger]
            chunk_run(t0, m, (addr + done) as u32, part, None) && program_run(
                m,
                t1,
                addr,
                data,
                done + k,
                None,
            );
        law_chunk_run_done(t0, m, (addr + done) as u32, part);
        law_program_waits(m, t1, addr, data, done + k);
        lemma_grown(t0, m, t1);
    }
}

/// A chunk read waited for its command, and the data words were read right
/// after the command was seen clear.
pub proof fn law_words_after_clear(t0: TraceV, t1: TraceV, addr: u32, out: Seq<u8>)
    requires
        1 <= out.len() <= PP_CHUNK,
        fetched_bytes(t0, t1, addr, out, None),
    ensures
        t1.extends(t0),
        commands_cleared(t0, t1),
        ({
            let first = t1.reads.len() - words_for(out.len() as int);
            let seen = t1.reads[first - 1];
            &&& first > t0.reads.len()
            &&& seen.after == t1.writes.len() && seen.offset == REG_CMD && seen.value & CMD_USR
                == 0
            &&& forall|j: int|
                0 <= j < out.len() ==> {
                    &&& #[trigger] out[j] == byte_of(t1.reads[first + j / 4].value, j % 4)
                    &&& t1.reads[first + j / 4].offset == REG_W0 + 4 * (j / 4)
                    &&& t1.reads[first + j / 4].after == t1.writes.len()
                }
        }),
{
    let s = read_set(t0, addr, out.len() as u32);
    let (m, words) = choose|m: TraceV, words: Seq<u32>| #[trigger]
        commanded(s, m, CMD_USR, None) && #[trigger] unpacked(words, out) && t1 == m.saw(
            word_reads(words),
        );
    let ws = read_writes(addr, out.len() as u32).drop_last();
    lemma_quiet(t0, ws, Seq::empty());
    lemma_commanded(s, m, CMD_USR);
    lemma_quiet(m, Seq::empty(), word_reads(words));
    lemma_grown(t0, s, m);
    lemma_grown(t0, m, t1);
    let first = t1.reads.len() - words_for(out.len() as int);
    assert(first == m.reads.len());
    assert(t1.reads[first - 1] == m.reads.last());
    assert forall|j: int| 0 <= j < out.len() implies ({
        &&& #[trigger] out[j] == byte_of(t1.reads[first + j / 4].value, j % 4)
        &&& t1.reads[first + j / 4].offset == REG_W0 + 4 * (j / 4)
        &&& t1.reads[first + j / 4].after == t1.writes.len()
    }) by {
        assert(word_reads(words)[j / 4] == ((REG_W0 + 4 * (j / 4)) as usize, words[j / 4]));
    }
}

/// Data read waited for each command, in every chunk.
pub proof fn law_read_waits(
    t0: TraceV,
    t1: TraceV,
    addr: u32,
    b0: Seq<u8>,
    b1: Seq<u8>,
    done: int,
)
    requires
        0 <= done,
        read_run(t0, t1, addr, b0, b1, done, None),
    ensures
        t1.extends(t0),
        commands_cleared(t0, t1),
    decreases b1.len() - done,
{
    if done < b1.len() {
        let n = read_len(b1.len() - done);
        let part = b1.subrange(done, done + n);
        let m = choose|m: TraceV| #[trigger]
            fetched_bytes(t0, m, (addr + done) as u32, part, None) && read_run(
                m,
                t1,
                addr,
                b0,
                b1,
                done + n,
                None,
            );
        law_words_after_clear(t0, m, (addr + done) as u32, part);
        law_read_waits(m, t1, addr, b0, b1, done + n);
        lemma_grown(t0, m, t1);
    }
}

proof fn lemma_program_step(
    t0: TraceV,
    m: TraceV,
    t1: TraceV,
    addr: u32,
    data: Seq<u8>,
    done: int,
    e: Option<SpiError>,
)
    requires
        0 <= done < data.len(),
        chunk_run(
            t0,
            m,
            (addr + done) as u32,
            data.subrange(done, done + chunk_len(addr + done, data.len() - done)),
            None,
        ),
        program_run(
            m,
            t1,
            addr,
            data,
            done + chunk_len(addr + done, data.len() - done),
            e,
        ),
    ensures
        program_run(t0, t1, addr, data, done, e),
{
}

proof fn lemma_read_step(
    t0: TraceV,
    m: TraceV,
    t1: TraceV,
    addr: u32,
    b0: Seq<u8>,
    b1: Seq<u8>,
    done: int,
    n: int,
    e: Option<SpiError>,
)
    requires
        0 <= done < b1.len(),
        n == read_len(b1.len() - done),
        fetched_bytes(t0, m, (addr + done) as u32, b1.subrange(done, done + n), None),
        read_run(m, t1, addr, b0, b1, done + n, e),
    ensures
        read_run(t0, t1, addr, b0, b1, done, e),
{
}

/// What one user-mode read of `n` bytes does to the registers.
pub open spec fn read_writes(addr: u32, n: u32) -> Seq<(usize, u32)> {
    seq![
        (REG_USER2, (7u32 << 28u32) | (OP_READ as u32)),
        (REG_USER1, 23u32 << 26u32),
        (REG_MISO_DLEN, (n * 8 - 1) as u32),
        (REG_USER, USER_USR_COMMAND | USER_USR_ADDR | USER_USR_MISO),
        (REG_ADDR, addr),
        (REG_CMD, CMD_USR),
    ]
}

/// Bytes of the chunk that begins at `at` with `left` bytes to go: up to
/// the page's end, the data buffer's size, or the end.
pub open spec fn chunk_len(at: int, left: int) -> int {
    let to_page_end = PAGE - at % (PAGE as int);
    let a = if to_page_end < PP_CHUNK {
        to_page_end
    } else {
        PP_CHUNK as int
    };
    if left < a {
        left
    } else {
        a
    }
}

/// A chunk is never empty, fits the data buffer, and stays in one page.
pub proof fn law_chunk_in_page(at: int, left: int)
    requires
        at >= 0,
        left >= 1,
    ensures
        1 <= chunk_len(at, left) <= PP_CHUNK,
        chunk_len(at, left) <= left,
        at / (PAGE as int) == (at + chunk_len(at, left) - 1) / (PAGE as int),
{
    let k = chunk_len(at, left);
    let p = at / 256;
    assert(at == p * 256 + at % 256);
    assert((at + k - 1) / 256 == p);
}

/// Byte `j` of a word.
pub open spec fn byte_of(v: u32, j: int) -> u8 {
    ((v >> ((8 * j) as u32)) & 0xFFu32) as u8
}

/// The last reads are of the data buffer, and `out` is their bytes.
pub open spec fn drained<B: RegBus>(b: &B, out: Seq<u8>) -> bool {
    let n = words_for(out.len() as int);
    let base = b.reads().len() - n;
    &&& base >= 0
    &&& forall|w: int|
        0 <= w < n ==> {
            &&& (#[trigger] b.reads()[base + w]).offset == REG_W0 + 4 * w
            &&& b.reads()[base + w].after == b.writes().len()
        }
    &&& forall|j: int|
        0 <= j < out.len() ==> #[trigger] out[j] == byte_of(b.reads()[base + j / 4].value, j % 4)
}

/// Where chunk `i` of a read of `len` bytes ends.
pub open spec fn read_end(len: int, i: int) -> int {
    if len < 64 * i + 64 {
        len
    } else {
        64 * i + 64
    }
}

/// Chunk `i` of a read into `buf`: from `a` to `b` one user-mode read.
pub open spec fn chunk_read<B: RegBus>(a: B, b: B, addr: u32, buf: Seq<u8>, i: int) -> bool {
    let end = read_end(buf.len() as int, i);
    &&& 64 * i < end
    &&& b.writes() == a.writes() + read_writes((addr + 64 * i) as u32, (end - 64 * i) as u32)
    &&& drained(&b, buf.subrange(64 * i, end))
}

/// The first `done` bytes of `buf` were read chunk by chunk, the bus having
/// gone through `wires`.
pub open spec fn chunks_read<B: RegBus>(
    wires: Seq<B>,
    addr: u32,
    buf: Seq<u8>,
    done: int,
) -> bool {
    &&& wires.len() >= 1
    &&& done == if wires.len() == 1 {
        0
    } else {
        read_end(buf.len() as int, wires.len() - 2)
    }
    &&& forall|i: int|
        0 <= i < wires.len() - 1 ==> chunk_read(#[trigger] wires[i], wires[i + 1], addr, buf, i)
}

/// One more chunk was read.
proof fn lemma_chunks_push<B: RegBus>(
    wires: Seq<B>,
    addr: u32,
    b0: Seq<u8>,
    b1: Seq<u8>,
    done: int,
    b: B,
)
    requires
        chunks_read(wires, addr, b0, done),
        b1.len() == b0.len(),
        done < b0.len(),
        forall|i: int| 0 <= i < done ==> #[trigger] b1[i] == b0[i],
        ({
            let n = if b0.len() - done < 64 {
                b0.len() - done
            } else {
                64
            };
            &&& b.writes() == wires.last().writes() + read_writes((addr + done) as u32, n as u32)
            &&& drained(&b, b1.subrange(done, done + n))
        }),
    ensures
        ({
            let n = if b0.len() - done < 64 {
                b0.len() - done
            } else {
                64
            };
            chunks_read(wires.push(b), addr, b1, done + n)
        }),
{
    let m = wires.push(b);
    assert(done == 64 * (wires.len() - 1));
    assert forall|i: int| 0 <= i < m.len() - 1 implies chunk_read(
        #[trigger] m[i],
        m[i + 1],
        addr,
        b1,
        i,
    ) by {
        if i < wires.len() - 1 {
            assert(chunk_read(wires[i], wires[i + 1], addr, b0, i));
            assert(b1.subrange(64 * i, read_end(b1.len() as int, i)) =~= b0.subrange(
                64 * i,
                read_end(b0.len() as int, i),
            ));
            assert(m[i] == wires[i]);
            assert(m[i + 1] == wires[i + 1]);
        } else {
            assert(m[i] == wires.last());
        }
    }
}

/// `buf` was read from `addr`, the registers having stood at `w0` before.
pub open spec fn read_done<B: RegBus>(
    w0: Seq<(usize, u32)>,
    b: B,
    addr: u32,
    buf: Seq<u8>,
) -> bool {
    exists|wires: Seq<B>| #[trigger]
        chunks_read(wires, addr, buf, buf.len() as int) && wires[0].writes() == w0 && wires.last()
            == b
}

/// A read from `addr` stopped short: whole chunks up to some byte, then the
/// next one's command.
pub open spec fn read_begun<B: RegBus>(
    w0: Seq<(usize, u32)>,
    b: B,
    addr: u32,
    buf: Seq<u8>,
) -> bool {
    exists|wires: Seq<B>, done: int|
        {
            let n = if buf.len() - done < 64 {
                buf.len() - done
            } else {
                64
            };
            &&& 0 <= done < buf.len()
            &&& #[trigger] chunks_read(wires, addr, buf, done)
            &&& wires[0].writes() == w0
            &&& b.writes() == wires.last().writes() + read_writes((addr + done) as u32, n as u32)
        }
}

/// ESP32-S3 SPI flash over a [`RegBus`].
///
/// Owns the flash byte range `[base, base + len)`; every operation is
/// bounds-checked against it. The sector is 4096 bytes, matching the block
/// size, so [`FlashBlockDevice`](crate::flash::FlashBlockDevice) writes are
/// exactly one sector erase plus program.
pub struct SpiFlash<B: RegBus> {
    bus: B,
    base: u32,
    len: u32,
}

impl<B: RegBus> SpiFlash<B> {
    /// The bus.
    pub closed spec fn wire(&self) -> B {
        self.bus
    }

    /// The owned range: first byte and length.
    pub closed spec fn owned(&self) -> (u32, u32) {
        (self.base, self.len)
    }

    /// The range lies in what the driver owns.
    pub open spec fn owns(&self, addr: int, len: int) -> bool {
        &&& addr + len <= u32::MAX
        &&& self.owned().0 + self.owned().1 <= u32::MAX
        &&& self.owned().0 <= addr
        &&& addr + len <= self.owned().0 + self.owned().1
    }

    /// Owns `[base, base + len)` of flash through `bus`.
    pub fn new(bus: B, base: u32, len: u32) -> (r: Self)
        ensures
            r.wire() == bus,
            r.owned() == (base, len),
    {
        SpiFlash { bus, base, len }
    }

    /// The underlying register bus (test introspection, board setup).
    pub fn bus(&self) -> (r: &B)
        ensures
            *r == self.wire(),
    {
        &self.bus
    }

    /// Spin until `bit` self-clears in `REG_CMD`.
    fn spin_cmd(&mut self, bit: u32) -> (r: Result<(), SpiError>)
        requires
            old(self).wire().writes().len() > 0,
            old(self).wire().writes().last() == (REG_CMD, bit),
        ensures
            final(self).owned() == old(self).owned(),
            final(self).wire().writes() == old(self).wire().writes(),
            old(self).wire().reads().is_prefix_of(final(self).wire().reads()),
            waited(trace(&old(self).wire()), trace(&final(self).wire()), bit, fault(r)),
            match r {
                Ok(()) => last_read(&final(self).wire(), REG_CMD, bit, false),
                Err(e) => {
                    &&& e == SpiError::Timeout
                    &&& cmd_stuck(&final(self).wire())
                },
            },
    {
        let mut i: u32 = 0;
        let ghost t0 = trace(&self.wire());
        let ghost mut vs: Seq<u32> = Seq::empty();
        proof {
            assert(t0 =~= t0.saw(spins(vs)));
        }
        loop
            invariant
                i < CMD_SPIN_MAX,
                t0 == trace(&old(self).wire()),
                trace(&self.wire()) == t0.saw(spins(vs)),
                vs.len() == i,
                forall|j: int| 0 <= j < i ==> #[trigger] vs[j] & bit != 0,
                self.owned() == old(self).owned(),
                self.wire().writes() == old(self).wire().writes(),
                old(self).wire().writes().len() > 0,
                old(self).wire().writes().last() == (REG_CMD, bit),
                self.wire().reads().len() == old(self).wire().reads().len() + i,
                old(self).wire().reads().is_prefix_of(self.wire().reads()),
                forall|j: int|
                    old(self).wire().reads().len() <= j < self.wire().reads().len() ==> {
                        &&& (#[trigger] self.wire().reads()[j]).offset == REG_CMD
                        &&& self.wire().reads()[j].after == self.wire().writes().len()
                        &&& self.wire().reads()[j].value & bit != 0
                    },
            decreases CMD_SPIN_MAX - i,
        {
            let v: u32 = self.bus.read(REG_CMD);
            proof {
                vs = vs.push(v);
                assert(trace(&self.wire()) =~= t0.saw(spins(vs)));
            }
            if v & bit == 0 {
                assert(cleared(vs, bit));
                return Ok(());
            }
            i = i + 1;
            if i >= CMD_SPIN_MAX {
                assert(stuck(vs, bit));
                return Err(SpiError::Timeout);
            }
        }
    }

    /// `WREN`, then verify the latch actually took via `RDSR`.
    fn write_enable(&mut self) -> (r: Result<(), SpiError>)
        ensures
            final(self).owned() == old(self).owned(),
            enabled(trace(&old(self).wire()), trace(&final(self).wire()), fault(r)),
            match r {
                Ok(()) => {
                    &&& final(self).wire().writes() == old(self).wire().writes() + enable_writes()
                    &&& last_read(&final(self).wire(), REG_RD_STATUS, STATUS_WEL, true)
                },
                Err(e) => {
                    &&& fault_seen(old(self).wire().writes(), &final(self).wire(), e)
                    &&& exists|k: int|
                        0 <= k <= 2 && final(self).wire().writes() == old(self).wire().writes()
                            + #[trigger] enable_writes().take(k)
                },
            },
    {
        let ghost w0 = self.wire().writes();
        let ghost t0 = trace(&self.wire());
        self.bus.write(REG_CMD, CMD_WREN);
        assert(self.wire().writes() =~= w0 + enable_writes().take(1));
        assert(trace(&self.wire()) =~= t0.wrote(seq![(REG_CMD, CMD_WREN)]));
        match self.spin_cmd(CMD_WREN) {
            Ok(()) => {},
            Err(e) => {
                assert(commanded(t0, trace(&self.wire()), CMD_WREN, Some(e)));
                return Err(e);
            },
        }
        let ghost t1 = trace(&self.wire());
        assert(commanded(t0, t1, CMD_WREN, None));
        self.bus.write(REG_CMD, CMD_RDSR);
        assert(self.wire().writes() =~= w0 + enable_writes().take(2));
        assert(trace(&self.wire()) =~= t1.wrote(seq![(REG_CMD, CMD_RDSR)]));
        match self.spin_cmd(CMD_RDSR) {
            Ok(()) => {},
            Err(e) => {
                assert(commanded(t1, trace(&self.wire()), CMD_RDSR, Some(e)));
                assert(latched(t1, trace(&self.wire()), Some(e)));
                return Err(e);
            },
        }
        let ghost t2 = trace(&self.wire());
        assert(commanded(t1, t2, CMD_RDSR, None));
        let status: u32 = self.bus.read(REG_RD_STATUS);
        assert(trace(&self.wire()) =~= t2.saw(seq![(REG_RD_STATUS, status)]));
        assert(fetched(t1, trace(&self.wire()), status));
        assert(self.wire().writes() =~= w0 + enable_writes());
        assert(enable_writes().take(2) =~= enable_writes());
        if status & STATUS_WEL == 0 {
            assert(latched(t1, trace(&self.wire()), Some(SpiError::WriteEnableFailed)));
            return Err(SpiError::WriteEnableFailed);
        }
        assert(latched(t1, trace(&self.wire()), None));
        Ok(())
    }

    /// Poll `RDSR` until `WIP` clears.
    fn poll_wip(&mut self) -> (r: Result<(), SpiError>)
        ensures
            final(self).owned() == old(self).owned(),
            idled(
                trace(&old(self).wire()),
                trace(&final(self).wire()),
                WIP_POLL_MAX as nat,
                fault(r),
            ),
            match r {
                Ok(()) => {
                    &&& polled(old(self).wire().writes(), final(self).wire().writes())
                    &&& last_read(&final(self).wire(), REG_RD_STATUS, STATUS_WIP, false)
                },
                Err(e) => {
                    &&& fault_seen(old(self).wire().writes(), &final(self).wire(), e)
                    &&& polled(old(self).wire().writes(), final(self).wire().writes())
                },
            },
    {
        let ghost w0 = self.wire().writes();
        let mut n: u32 = 0;
        let ghost t0 = trace(&self.wire());
        proof {
            assert(w0 =~= w0 + status_polls(0));
        }
        loop
            invariant
                n < WIP_POLL_MAX,
                t0 == trace(&old(self).wire()),
                forall|t: TraceV, e: Option<SpiError>| #[trigger]
                    idled(trace(&self.wire()), t, (WIP_POLL_MAX - n) as nat, e) ==> idled(
                        t0,
                        t,
                        WIP_POLL_MAX as nat,
                        e,
                    ),
                self.owned() == old(self).owned(),
                w0 == old(self).wire().writes(),
                self.wire().writes() == w0 + status_polls(n as nat),
                forall|k: nat|
                    w0.len() < k <= w0.len() + n ==> #[trigger] busy_after(&self.wire(), k),
            decreases WIP_POLL_MAX - n,
        {
            let ghost b0 = self.wire();
            let ghost left = (WIP_POLL_MAX - n) as nat;
            let ghost t1 = trace(&self.wire());
            self.bus.write(REG_CMD, CMD_RDSR);
            proof {
                assert(self.wire().writes() =~= w0 + status_polls((n + 1) as nat));
                assert(trace(&self.wire()) =~= t1.wrote(seq![(REG_CMD, CMD_RDSR)]));
            }
            match self.spin_cmd(CMD_RDSR) {
                Ok(()) => {},
                Err(e) => {
                    assert(commanded(t1, trace(&self.wire()), CMD_RDSR, Some(e)));
                    assert(idled(t1, trace(&self.wire()), left, Some(e)));
                    return Err(e);
                },
            }
            let ghost t2 = trace(&self.wire());
            assert(commanded(t1, t2, CMD_RDSR, None));
            let status: u32 = self.bus.read(REG_RD_STATUS);
            assert(trace(&self.wire()) =~= t2.saw(seq![(REG_RD_STATUS, status)]));
            assert(fetched(t1, trace(&self.wire()), status));
            if status & STATUS_WIP == 0 {
                assert(idled(t1, trace(&self.wire()), left, None));
                return Ok(());
            }
            n = n + 1;
            proof {
                let b1 = self.wire();
                let m = trace(&b1);
                if left == 1 {
                    assert(idled(t1, m, left, Some(SpiError::Timeout)));
                } else {
                    assert(left - 1 == WIP_POLL_MAX - n);
                    assert forall|t: TraceV, e: Option<SpiError>| #[trigger]
                        idled(m, t, (WIP_POLL_MAX - n) as nat, e) implies idled(
                        t0,
                        t,
                        WIP_POLL_MAX as nat,
                        e,
                    ) by {
                        assert(fetched(t1, m, status));
                        assert(idled(t1, t, left, e));
                    }
                }
                assert forall|k: nat| w0.len() < k <= w0.len() + n implies #[trigger] busy_after(
                    &b1,
                    k,
                ) by {
                    if k < w0.len() + n {
                        assert(busy_after(&b0, k));
                        let i = choose|i: int|
                            0 <= i < b0.reads().len() && (#[trigger] b0.reads()[i]).offset
                                == REG_RD_STATUS && b0.reads()[i].after == k
                                && b0.reads()[i].value & STATUS_WIP != 0;
                        assert(b1.reads()[i] == b0.reads()[i]);
                    } else {
                        assert(b1.reads()[b1.reads().len() - 1].after == k);
                    }
                }
            }
            if n >= WIP_POLL_MAX {
                return Err(SpiError::Timeout);
            }
        }
    }

    /// Reject anything outside `[base, base + len)`.
    fn check_range(&self, addr: u32, len: u32) -> (r: Result<(), SpiError>)
        ensures
            r == if self.owns(addr as int, len as int) {
                Ok::<(), SpiError>(())
            } else {
                Err(SpiError::OutOfRange)
            },
    {
        let end: u32 = match addr.checked_add(len) {
            Some(end) => end,
            None => {
                return Err(SpiError::OutOfRange);
            },
        };
        let region_end: u32 = match self.base.checked_add(self.len) {
            Some(end) => end,
            None => {
                return Err(SpiError::OutOfRange);
            },
        };
        if addr < self.base || end > region_end {
            return Err(SpiError::OutOfRange);
        }
        Ok(())
    }

    /// One page-program chunk: `1 <= data.len() <= 64`, within a single
    /// page.
    fn program_chunk(&mut self, addr: u32, data: &[u8]) -> (r: Result<(), SpiError>)
        requires
            1 <= data@.len() <= PP_CHUNK,
        ensures
            final(self).owned() == old(self).owned(),
            chunk_run(trace(&old(self).wire()), trace(&final(self).wire()), addr, data@, fault(r)),
            match r {
                Ok(()) => {
                    &&& chunk_done(
                        trace(&old(self).wire()),
                        trace(&final(self).wire()),
                        addr,
                        data@,
                    )
                    &&& last_read(&final(self).wire(), REG_RD_STATUS, STATUS_WIP, false)
                },
                Err(e) => {
                    &&& fault_seen(old(self).wire().writes(), &final(self).wire(), e)
                    &&& chunk_begun(
                        old(self).wire().writes(),
                        final(self).wire().writes(),
                        addr,
                        data@,
                    )
                },
            },
    {
        let ghost w0 = self.wire().writes();
        let ghost t0 = trace(&self.wire());
        match self.write_enable() {
            Ok(()) => {},
            Err(e) => {
                proof {
                    let k = choose|k: int|
                        0 <= k <= 2 && self.wire().writes() == w0
                            + #[trigger] enable_writes().take(k);
                    assert(chunk_writes(addr, data@, 0, 0).take(k) =~= enable_writes().take(k));
                }
                return Err(e);
            },
        }
        let ghost t1 = trace(&self.wire());
        assert(enabled(t0, t1, None));
        // The chunk length goes to ADDR[31:24].
        self.bus.write(REG_ADDR, (addr & 0x00FF_FFFF) | ((data.len() as u32) << 24));
        let ghost w1 = self.wire().writes();
        // Words into W0.., zero-padded.
        let words: usize = (data.len() + 3) / 4;
        let mut wi: usize = 0;
        proof {
            assert(w1 =~= w1 + word_writes(data@, 0));
        }
        while wi < words
            invariant
                wi <= words,
                words == words_for(data@.len() as int),
                1 <= data@.len() <= PP_CHUNK,
                self.owned() == old(self).owned(),
                self.wire().writes() == w1 + word_writes(data@, wi as nat),
                self.wire().reads() == t1.reads,
            decreases words - wi,
        {
            let w: u32 = Self::lane_at(data, 4 * wi) | (Self::lane_at(data, 4 * wi + 1) << 8)
                | (Self::lane_at(data, 4 * wi + 2) << 16) | (Self::lane_at(data, 4 * wi + 3)
                << 24);
            self.bus.write(REG_W0 + wi * 4, w);
            wi = wi + 1;
            proof {
                assert(self.wire().writes() =~= w1 + word_writes(data@, wi as nat));
            }
        }
        // `usr_dummy = 0`.
        let user: u32 = self.bus.read(REG_USER);
        self.bus.write(REG_USER, user & !USER_USR_DUMMY);
        let ghost t2 = trace(&self.wire());
        self.bus.write(REG_CMD, CMD_PP);
        let ghost w2 = self.wire().writes();
        proof {
            let ws = seq![(REG_ADDR, (addr & 0x00FF_FFFFu32) | ((data@.len() as u32) << 24u32))]
                + word_writes(data@, words_for(data@.len() as int));
            assert(t2 =~= t1.wrote(ws).saw(seq![(REG_USER, user)]).wrote(
                seq![(REG_USER, user & !USER_USR_DUMMY)],
            ));
            assert(chunk_set(t0, t2, addr, data@, user));
            assert(trace(&self.wire()) =~= t2.wrote(seq![(REG_CMD, CMD_PP)]));
            let all = chunk_writes(addr, data@, user, 0);
            assert(w2 =~= w0 + all.take(all.len() as int));
        }
        match self.spin_cmd(CMD_PP) {
            Ok(()) => {},
            Err(e) => {
                assert(commanded(t2, trace(&self.wire()), CMD_PP, Some(e)));
                return Err(e);
            },
        }
        let ghost t3 = trace(&self.wire());
        assert(commanded(t2, t3, CMD_PP, None));
        match self.poll_wip() {
            Ok(()) => {},
            Err(e) => {
                proof {
                    let w3 = self.wire().writes();
                    let n = choose|n: nat|
                        1 <= n <= WIP_POLL_MAX && w3 == w2 + #[trigger] status_polls(n);
                    let all = chunk_writes(addr, data@, user, n);
                    assert(w3 =~= w0 + all.take(all.len() as int));
                }
                return Err(e);
            },
        }
        proof {
            assert(idled(t3, trace(&self.wire()), WIP_POLL_MAX as nat, None));
            assert(chunk_run(t0, trace(&self.wire()), addr, data@, None));
            law_chunk_run_done(t0, trace(&self.wire()), addr, data@);
        }
        Ok(())
    }

    /// Byte `j` of a chunk for a word, zero past the chunk's end.
    fn lane_at(data: &[u8], j: usize) -> (r: u32)
        ensures
            r == lane(data@, j as int),
    {
        if j < data.len() {
            data[j] as u32
        } else {
            0
        }
    }

    /// One user-mode `0x03` read: `1 <= n <= 64` bytes into `out` from
    /// `off` on.
    fn read_chunk(&mut self, addr: u32, out: &mut [u8], off: usize, n: u32) -> (r: Result<
        (),
        SpiError,
    >)
        requires
            1 <= n <= PP_CHUNK,
            off + n <= old(out)@.len(),
        ensures
            final(self).owned() == old(self).owned(),
            final(out)@.len() == old(out)@.len(),
            fetched_bytes(
                trace(&old(self).wire()),
                trace(&final(self).wire()),
                addr,
                final(out)@.subrange(off as int, off + n),
                fault(r),
            ),
            match r {
                Ok(()) => {
                    &&& final(self).wire().writes() == old(self).wire().writes() + read_writes(
                        addr,
                        n,
                    )
                    &&& drained(&final(self).wire(), final(out)@.subrange(off as int, off + n))
                    &&& forall|i: int|
                        0 <= i < old(out)@.len() && !(off <= i < off + n)
                            ==> #[trigger] final(out)@[i] == old(out)@[i]
                },
                Err(e) => {
                    &&& e == SpiError::Timeout
                    &&& fault_seen(old(self).wire().writes(), &final(self).wire(), e)
                    &&& final(self).wire().writes() == old(self).wire().writes() + read_writes(
                        addr,
                        n,
                    )
                    &&& final(out)@ == old(out)@
                },
            },
    {
        let ghost w0 = self.wire().writes();
        let ghost t0 = trace(&self.wire());
        self.bus.write(REG_USER2, (7u32 << 28u32) | (OP_READ as u32));  // 8-bit command
        self.bus.write(REG_USER1, 23u32 << 26u32);  // 24-bit address phase
        self.bus.write(REG_MISO_DLEN, n * 8 - 1);  // bits, minus one
        self.bus.write(REG_USER, USER_USR_COMMAND | USER_USR_ADDR | USER_USR_MISO);
        self.bus.write(REG_ADDR, addr);
        self.bus.write(REG_CMD, CMD_USR);
        proof {
            assert(self.wire().writes() =~= w0 + read_writes(addr, n));
            assert(trace(&self.wire()) =~= read_set(t0, addr, n).wrote(
                seq![(REG_CMD, CMD_USR)],
            ));
        }
        match self.spin_cmd(CMD_USR) {
            Ok(()) => {},
            Err(e) => {
                proof {
                    let part = out@.subrange(off as int, off + n);
                    assert(part.len() == n);
                    assert(commanded(read_set(t0, addr, n), trace(&self.wire()), CMD_USR, Some(e)));
                }
                return Err(e);
            },
        }
        let ghost t1 = trace(&self.wire());
        let ghost mut words_read: Seq<u32> = Seq::empty();
        proof {
            assert(t1 =~= t1.saw(word_reads(words_read)));
        }
        let ghost w1 = self.wire().writes();
        let ghost r1 = self.wire().reads();
        let count: usize = n as usize;
        let total: usize = out.len();
        let words: usize = (count + 3) / 4;
        let mut wi: usize = 0;
        while wi < words
            invariant
                wi <= words,
                words == words_for(count as int),
                1 <= count <= PP_CHUNK,
                off + count <= total,
                out@.len() == total,
                total == old(out)@.len(),
                self.owned() == old(self).owned(),
                self.wire().writes() == w1,
                r1 == t1.reads,
                w1 == t1.writes,
                words_read.len() == wi,
                trace(&self.wire()) == t1.saw(word_reads(words_read)),
                self.wire().reads().len() == r1.len() + wi,
                forall|w: int|
                    0 <= w < wi ==> {
                        &&& (#[trigger] self.wire().reads()[r1.len() + w]).offset == REG_W0 + 4 * w
                        &&& self.wire().reads()[r1.len() + w].after == w1.len()
                    },
                forall|j: int|
                    0 <= j < 4 * wi && j < count ==> #[trigger] out@[off + j] == byte_of(
                        self.wire().reads()[r1.len() + j / 4].value,
                        j % 4,
                    ),
                forall|i: int|
                    0 <= i < out@.len() && !(off <= i < off + count) ==> #[trigger] out@[i] == old(
                        out)@[i],
            decreases words - wi,
        {
            let v: u32 = self.bus.read(REG_W0 + wi * 4);
            proof {
                words_read = words_read.push(v);
                assert(trace(&self.wire()) =~= t1.saw(word_reads(words_read)));
            }
            let ghost o1 = out@;
            let mut j: usize = 0;
            while j < 4 && 4 * wi + j < count
                invariant
                    j <= 4,
                    4 * wi + j <= count || j == 0,
                    4 * wi < count,
                    off + count <= total,
                    out@.len() == total,
                    o1.len() == total,
                    forall|x: int|
                        0 <= x < j ==> #[trigger] out@[off + 4 * wi + x] == byte_of(v, x),
                    forall|i: int|
                        0 <= i < out@.len() && !(off + 4 * wi <= i < off + 4 * wi + j)
                            ==> #[trigger] out@[i] == o1[i],
                decreases 4 - j,
            {
                let shift: u32 = 8 * (j as u32);
                let b: u8 = ((v >> shift) & 0xFF) as u8;
                out[off + 4 * wi + j] = b;
                j = j + 1;
            }
            proof {
                assert forall|x: int| 0 <= x < 4 * (wi + 1) && x < count implies #[trigger] out@[off
                    + x] == byte_of(self.wire().reads()[r1.len() + x / 4].value, x % 4) by {
                    if x < 4 * wi {
                        assert(o1[off + x] == out@[off + x]);
                    } else {
                        assert(out@[off + 4 * wi + (x - 4 * wi)] == byte_of(v, x - 4 * wi));
                    }
                }
            }
            wi = wi + 1;
        }
        proof {
            let part = out@.subrange(off as int, off + n);
            assert(part.len() == count);
            assert forall|j: int| 0 <= j < part.len() implies #[trigger] part[j] == byte_of(
                self.wire().reads()[r1.len() + j / 4].value,
                j % 4,
            ) by {
                assert(out@[off + j] == part[j]);
            }
            assert forall|j: int| 0 <= j < part.len() implies #[trigger] part[j] == byte_of(
                words_read[j / 4],
                j % 4,
            ) by {
                assert(self.wire().reads()[r1.len() + j / 4].value == words_read[j / 4]);
            }
            assert(unpacked(words_read, part));
            assert(part.len() as u32 == n);
            assert(commanded(read_set(t0, addr, n), t1, CMD_USR, None));
            assert(fetched_bytes(t0, trace(&self.wire()), addr, part, None));
        }
        Ok(())
    }

    /// Erases the sector at `addr` (must be sector-aligned).
    pub fn erase_sector(&mut self, addr: u32) -> (r: Result<(), SpiError>)
        ensures
            final(self).owned() == old(self).owned(),
            if addr % SECTOR_U32 != 0 {
                r == Err::<(), SpiError>(SpiError::Misaligned) && *final(self) == *old(self)
            } else if !old(self).owns(addr as int, SECTOR_U32 as int) {
                r == Err::<(), SpiError>(SpiError::OutOfRange) && *final(self) == *old(self)
            } else {
                &&& erased(trace(&old(self).wire()), trace(&final(self).wire()), addr, fault(r))
                &&& match r {
                    Ok(()) => {
                        &&& sector_done(
                            trace(&old(self).wire()),
                            trace(&final(self).wire()),
                            addr,
                        )
                        &&& last_read(&final(self).wire(), REG_RD_STATUS, STATUS_WIP, false)
                    },
                    Err(e) => {
                        &&& fault_seen(old(self).wire().writes(), &final(self).wire(), e)
                        &&& sector_begun(
                            old(self).wire().writes(),
                            final(self).wire().writes(),
                            addr,
                        )
                    },
                }
            },
    {
        if addr % SECTOR_U32 != 0 {
            return Err(SpiError::Misaligned);
        }
        match self.check_range(addr, SECTOR_U32) {
            Ok(()) => {},
            Err(e) => {
                return Err(e);
            },
        }
        let ghost w0 = self.wire().writes();
        let ghost t0 = trace(&self.wire());
        match self.write_enable() {
            Ok(()) => {},
            Err(e) => {
                proof {
                    let k = choose|k: int|
                        0 <= k <= 2 && self.wire().writes() == w0
                            + #[trigger] enable_writes().take(k);
                    assert(erase_writes(addr, 0, 0).take(k) =~= enable_writes().take(k));
                }
                return Err(e);
            },
        }
        let ghost t1 = trace(&self.wire());
        assert(enabled(t0, t1, None));
        self.bus.write(REG_ADDR, addr);
        // CTRL is cleared for the erase. Save/restore it so the
        // boot-configured read mode survives.
        let ctrl: u32 = self.bus.read(REG_CTRL);
        self.bus.write(REG_CTRL, 0);
        let ghost t2 = trace(&self.wire());
        self.bus.write(REG_CMD, CMD_SE);
        proof {
            assert(t2 =~= t1.wrote(seq![(REG_ADDR, addr)]).saw(seq![(REG_CTRL, ctrl)]).wrote(
                seq![(REG_CTRL, 0u32)],
            ));
            assert(sector_set(t0, t2, addr, ctrl));
            assert(trace(&self.wire()) =~= t2.wrote(seq![(REG_CMD, CMD_SE)]));
        }
        assert(self.wire().writes() =~= w0 + erase_writes(addr, ctrl, 0).take(5));
        match self.spin_cmd(CMD_SE) {
            Ok(()) => {},
            Err(e) => {
                assert(commanded(t2, trace(&self.wire()), CMD_SE, Some(e)));
                return Err(e);
            },
        }
        let ghost t3 = trace(&self.wire());
        assert(commanded(t2, t3, CMD_SE, None));
        self.bus.write(REG_CTRL, ctrl);
        assert(trace(&self.wire()) =~= t3.wrote(seq![(REG_CTRL, ctrl)]));
        let ghost w2 = self.wire().writes();
        match self.poll_wip() {
            Ok(()) => {},
            Err(e) => {
                proof {
                    let w3 = self.wire().writes();
                    let n = choose|n: nat|
                        1 <= n <= WIP_POLL_MAX && w3 == w2 + #[trigger] status_polls(n);
                    let all = erase_writes(addr, ctrl, n);
                    assert(w3 =~= w0 + all.take(all.len() as int));
                }
                return Err(e);
            },
        }
        proof {
            let t4 = t3.wrote(seq![(REG_CTRL, ctrl)]);
            assert(idled(t4, trace(&self.wire()), WIP_POLL_MAX as nat, None));
            assert(erased(t0, trace(&self.wire()), addr, None));
            law_erased_done(t0, trace(&self.wire()), addr);
        }
        Ok(())
    }

    /// Programs `data` at `addr`, clearing bits only.
    pub fn program(&mut self, addr: u32, data: &[u8]) -> (r: Result<(), SpiError>)
        ensures
            final(self).owned() == old(self).owned(),
            if !old(self).owns(addr as int, data@.len() as int) {
                r == Err::<(), SpiError>(SpiError::OutOfRange) && *final(self) == *old(self)
            } else if data@.len() == 0 {
                r == Ok::<(), SpiError>(()) && *final(self) == *old(self)
            } else {
                &&& program_run(
                    trace(&old(self).wire()),
                    trace(&final(self).wire()),
                    addr,
                    data@,
                    0,
                    fault(r),
                )
                &&& match r {
                    Ok(()) => {
                        &&& program_done(
                            trace(&old(self).wire()),
                            trace(&final(self).wire()),
                            addr,
                            data@,
                        )
                        &&& commands_cleared(
                            trace(&old(self).wire()),
                            trace(&final(self).wire()),
                        )
                        &&& last_read(&final(self).wire(), REG_RD_STATUS, STATUS_WIP, false)
                    },
                    Err(e) => {
                        &&& fault_seen(old(self).wire().writes(), &final(self).wire(), e)
                        &&& program_begun(
                            trace(&old(self).wire()),
                            final(self).wire().writes(),
                            addr,
                            data@,
                        )
                    },
                }
            },
    {
        if data.len() > u32::MAX as usize {
            return Err(SpiError::OutOfRange);
        }
        let len: u32 = data.len() as u32;
        match self.check_range(addr, len) {
            Ok(()) => {},
            Err(e) => {
                return Err(e);
            },
        }
        let ghost w0 = self.wire().writes();
        let ghost mut marks: Seq<(int, TraceV)> = seq![(0int, trace(&self.wire()))];
        let ghost t0 = trace(&self.wire());
        let mut done: u32 = 0;
        while done < len
            invariant
                done <= len,
                t0 == trace(&old(self).wire()),
                forall|t: TraceV, e: Option<SpiError>| #[trigger]
                    program_run(trace(&self.wire()), t, addr, data@, done as int, e)
                        ==> program_run(t0, t, addr, data@, 0, e),
                len == data@.len(),
                addr + len <= u32::MAX,
                old(self).owns(addr as int, data@.len() as int),
                self.owned() == old(self).owned(),
                programmed(marks, addr, data@, done as int),
                w0 == old(self).wire().writes(),
                marks[0].1 == t0,
                marks.last().1 == trace(&self.wire()),
                w0.len() <= self.wire().writes().len(),
                done == 0 ==> *self == *old(self),
                done > 0 ==> last_read(&self.wire(), REG_RD_STATUS, STATUS_WIP, false),
            decreases len - done,
        {
            let at: u32 = addr + done;
            let to_page_end: u32 = PAGE - at % PAGE;
            let mut chunk: u32 = if to_page_end < PP_CHUNK {
                to_page_end
            } else {
                PP_CHUNK
            };
            if len - done < chunk {
                chunk = len - done;
            }
            proof {
                law_chunk_in_page(at as int, len - done);
                assert(chunk == chunk_len(at as int, len - done));
            }
            let end: u32 = done + chunk;
            let part: &[u8] = vstd::slice::slice_subrange(data, done as usize, end as usize);
            let ghost t1 = trace(&self.wire());
            match self.program_chunk(at, part) {
                Ok(()) => {},
                Err(e) => {
                    proof {
                        let t2 = trace(&self.wire());
                        assert(program_run(t1, t2, addr, data@, done as int, Some(e)));
                        assert(part@ =~= data@.subrange(
                            done as int,
                            done + chunk_len(addr + done, data@.len() - done),
                        ));
                        assert(program_begun(t0, self.wire().writes(), addr, data@));
                    }
                    return Err(e);
                },
            }
            proof {
                let t2 = trace(&self.wire());
                assert(chunk_run(t1, t2, at, part@, None));
                assert(part@ =~= data@.subrange(done as int, done + chunk));
                assert forall|t: TraceV, e: Option<SpiError>| #[trigger]
                    program_run(t2, t, addr, data@, end as int, e) implies program_run(
                    t0,
                    t,
                    addr,
                    data@,
                    0,
                    e,
                ) by {
                    lemma_program_step(t1, t2, t, addr, data@, done as int, e);
                }
                lemma_programmed_push(marks, addr, data@, done as int, t2);
                marks = marks.push((end as int, t2));
            }
            done = end;
        }
        proof {
            let t1 = trace(&self.wire());
            assert(program_run(t1, t1, addr, data@, done as int, None));
            law_program_waits(t0, t1, addr, data@, 0);
        }
        Ok(())
    }

    /// Reads `buf.len()` bytes from `addr` into `buf`.
    pub fn read(&mut self, addr: u32, buf: &mut [u8]) -> (r: Result<(), SpiError>)
        ensures
            final(self).owned() == old(self).owned(),
            final(buf)@.len() == old(buf)@.len(),
            if !old(self).owns(addr as int, old(buf)@.len() as int) {
                &&& r == Err::<(), SpiError>(SpiError::OutOfRange)
                &&& *final(self) == *old(self)
                &&& final(buf)@ == old(buf)@
            } else if old(buf)@.len() == 0 {
                r == Ok::<(), SpiError>(()) && *final(self) == *old(self)
            } else {
                &&& read_run(
                    trace(&old(self).wire()),
                    trace(&final(self).wire()),
                    addr,
                    old(buf)@,
                    final(buf)@,
                    0,
                    fault(r),
                )
                &&& match r {
                    Ok(()) => {
                        &&& read_done(
                            old(self).wire().writes(),
                            final(self).wire(),
                            addr,
                            final(buf)@,
                        )
                        &&& commands_cleared(
                            trace(&old(self).wire()),
                            trace(&final(self).wire()),
                        )
                    },
                    Err(e) => {
                        &&& e == SpiError::Timeout
                        &&& fault_seen(old(self).wire().writes(), &final(self).wire(), e)
                        &&& read_begun(
                            old(self).wire().writes(),
                            final(self).wire(),
                            addr,
                            final(buf)@,
                        )
                    },
                }
            },
    {
        if buf.len() > u32::MAX as usize {
            return Err(SpiError::OutOfRange);
        }
        let len: u32 = buf.len() as u32;
        match self.check_range(addr, len) {
            Ok(()) => {},
            Err(e) => {
                return Err(e);
            },
        }
        let ghost mut wires: Seq<B> = seq![self.wire()];
        let ghost t0 = trace(&self.wire());
        let ghost o0 = buf@;
        let mut done: u32 = 0;
        while done < len
            invariant
                done <= len,
                t0 == trace(&old(self).wire()),
                o0 == old(buf)@,
                forall|j: int| done <= j < len ==> #[trigger] buf@[j] == o0[j],
                forall|t: TraceV, o: Seq<u8>, e: Option<SpiError>|
                    o.len() == len && o.take(done as int) == buf@.take(done as int)
                        && #[trigger] read_run(
                        trace(&self.wire()),
                        t,
                        addr,
                        o0,
                        o,
                        done as int,
                        e,
                    ) ==> read_run(t0, t, addr, o0, o, 0, e),
                len == buf@.len(),
                buf@.len() == old(buf)@.len(),
                addr + len <= u32::MAX,
                old(self).owns(addr as int, old(buf)@.len() as int),
                self.owned() == old(self).owned(),
                chunks_read(wires, addr, buf@, done as int),
                wires[0].writes() == old(self).wire().writes(),
                wires.last() == self.wire(),
                old(self).wire().writes().len() <= self.wire().writes().len(),
                done == 0 ==> *self == *old(self),
            decreases len - done,
        {
            let n: u32 = if len - done < PP_CHUNK {
                len - done
            } else {
                PP_CHUNK
            };
            let ghost b0 = buf@;
            let ghost t1 = trace(&self.wire());
            match self.read_chunk(addr + done, buf, done as usize, n) {
                Ok(()) => {},
                Err(e) => {
                    assert(buf@.skip(done as int) =~= o0.skip(done as int));
                    assert(read_run(
                        t1,
                        trace(&self.wire()),
                        addr,
                        o0,
                        buf@,
                        done as int,
                        Some(e),
                    ));
                    assert(chunks_read(wires, addr, buf@, done as int));
                    return Err(e);
                },
            }
            proof {
                let t2 = trace(&self.wire());
                assert forall|t: TraceV, o: Seq<u8>, e: Option<SpiError>|
                    o.len() == len && o.take(done + n) == buf@.take(done + n)
                        && #[trigger] read_run(
                        t2,
                        t,
                        addr,
                        o0,
                        o,
                        done + n,
                        e,
                    ) implies read_run(t0, t, addr, o0, o, 0, e) by {
                    let a = o.take(done + n);
                    let b = buf@.take(done + n);
                    assert forall|j: int| 0 <= j < done + n implies o[j] == buf@[j] by {
                        assert(a[j] == b[j]);
                    }
                    assert(o.subrange(done as int, done + n) =~= buf@.subrange(
                        done as int,
                        done + n,
                    ));
                    assert(o.take(done as int) =~= b0.take(done as int));
                    lemma_read_step(t1, t2, t, addr, o0, o, done as int, n as int, e);
                }
                lemma_chunks_push(wires, addr, b0, buf@, done as int, self.wire());
                wires = wires.push(self.wire());
            }
            done = done + n;
        }
        proof {
            let t1 = trace(&self.wire());
            assert(read_run(t1, t1, addr, o0, buf@, done as int, None));
            law_read_waits(t0, t1, addr, o0, buf@, 0);
        }
        Ok(())
    }
}

} // verus!

//! When the flash driver gives up, how it cuts and packs its data, and what
//! it says to the controller.

use vstd::prelude::*;

use crate::esp32s3::{
    byte_of, chunk_len, chunk_run, chunk_set, chunk_writes, cleared, commanded, enabled,
    erase_writes, erased, fetched, idled, lane, latched, read_writes, sector_set, spins,
    status_polls, stuck, word_of, word_writes, words_for, SpiError, TraceV, CMD_PP, CMD_RDSR, CMD_SE, CMD_WREN, REG_ADDR, REG_CMD, REG_CTRL, REG_RD_STATUS, REG_USER,
    STATUS_WEL, STATUS_WIP, USER_USR_DUMMY, WIP_POLL_MAX,
};

verus! {

/// A command is given up only after a million reads of the command register
/// that all found its bit still set.
pub proof fn law_command_patience(t0: TraceV, t1: TraceV, bit: u32, e: SpiError, i: int)
    requires
        commanded(t0, t1, bit, Some(e)),
        0 <= i < 1_000_000,
    ensures
        e == SpiError::Timeout,
        t1.reads.len() == t0.reads.len() + 1_000_000,
        t1.reads[t0.reads.len() + i].offset == 0,
        t1.reads[t0.reads.len() + i].value & bit != 0,
{
    let t = t0.wrote(seq![(REG_CMD, bit)]);
    let vs = choose|vs: Seq<u32>| #[trigger] stuck(vs, bit) && t1 == t.saw(spins(vs));
    assert(vs[i] & bit != 0);
    assert(spins(vs)[i] == (REG_CMD, vs[i]));
}

proof fn lemma_command_reads(t0: TraceV, t1: TraceV, bit: u32)
    requires
        commanded(t0, t1, bit, None),
    ensures
        t1.reads.len() > t0.reads.len(),
{
    let t = t0.wrote(seq![(REG_CMD, bit)]);
    let vs = choose|vs: Seq<u32>| #[trigger] cleared(vs, bit) && t1 == t.saw(spins(vs));
}

proof fn lemma_fetch_reads(t0: TraceV, t1: TraceV, status: u32)
    requires
        fetched(t0, t1, status),
    ensures
        t1.reads.len() > t0.reads.len(),
        t1.reads.last().value == status,
{
    let m = choose|m: TraceV| #[trigger]
        commanded(t0, m, CMD_RDSR, None) && t1 == m.saw(
            seq![(REG_RD_STATUS, status)],
        );
    lemma_command_reads(t0, m, CMD_RDSR);
}

/// The chip is waited for until it was seen busy as often as allowed, or a
/// poll itself was given up.
proof fn lemma_idle_patience(t0: TraceV, t1: TraceV, left: nat, e: SpiError)
    requires
        idled(t0, t1, left, Some(e)),
        left <= 1_000_000,
    ensures
        e == SpiError::Timeout,
        t1.reads.len() >= t0.reads.len() + left,
    decreases left,
{
    if commanded(t0, t1, CMD_RDSR, Some(e)) {
        law_command_patience(t0, t1, CMD_RDSR, e, 0);
    } else {
        let (m, status) = choose|m: TraceV, status: u32| #[trigger]
            fetched(t0, m, status) && (if status & STATUS_WIP == 0 {
                false
            } else if left == 1 {
                Some(e) == Some(SpiError::Timeout) && t1 == m
            } else {
                idled(m, t1, (left - 1) as nat, Some(e))
            });
        lemma_fetch_reads(t0, m, status);
        if left > 1 {
            lemma_idle_patience(m, t1, (left - 1) as nat, e);
        }
    }
}

proof fn lemma_enable_patience(t0: TraceV, t1: TraceV, e: SpiError)
    requires
        enabled(t0, t1, Some(e)),
    ensures
        e == SpiError::Timeout ==> t1.reads.len() >= t0.reads.len() + 1_000_000,
        e == SpiError::Timeout || (e == SpiError::WriteEnableFailed && t1.reads.len()
            > t0.reads.len() && t1.reads.last().value & STATUS_WEL == 0),
{
    if commanded(t0, t1, CMD_WREN, Some(e)) {
        law_command_patience(t0, t1, CMD_WREN, e, 0);
    } else {
        let m = choose|m: TraceV| #[trigger]
            commanded(t0, m, CMD_WREN, None) && latched(m, t1, Some(e));
        lemma_command_reads(t0, m, CMD_WREN);
        if commanded(m, t1, CMD_RDSR, Some(e)) {
            law_command_patience(m, t1, CMD_RDSR, e, 0);
        } else {
            let status = choose|status: u32| #[trigger]
                fetched(m, t1, status) && Some(e) == (if status & STATUS_WEL == 0 {
                    Some(SpiError::WriteEnableFailed)
                } else {
                    None
                });
            lemma_fetch_reads(m, t1, status);
        }
    }
}

proof fn lemma_enabled_reads(t0: TraceV, t1: TraceV)
    requires
        enabled(t0, t1, None),
    ensures
        t1.reads.len() >= t0.reads.len(),
{
    let m = choose|m: TraceV| #[trigger] commanded(t0, m, CMD_WREN, None) && latched(m, t1, None);
    lemma_command_reads(t0, m, CMD_WREN);
    let status = choose|status: u32| #[trigger]
        fetched(m, t1, status) && None::<SpiError> == (if status & STATUS_WEL == 0 {
            Some(SpiError::WriteEnableFailed)
        } else {
            None
        });
    lemma_fetch_reads(m, t1, status);
}

/// An erase times out only after a million register reads, and fails
/// otherwise only where the latch was read clear.
pub proof fn law_erase_patience(t0: TraceV, t1: TraceV, addr: u32, e: SpiError)
    requires
        erased(t0, t1, addr, Some(e)),
    ensures
        e == SpiError::Timeout ==> t1.reads.len() >= t0.reads.len() + 1_000_000,
        e == SpiError::Timeout || (e == SpiError::WriteEnableFailed && t1.reads.len()
            > t0.reads.len() && t1.reads.last().value & 2 == 0),
{
    if enabled(t0, t1, Some(e)) {
        lemma_enable_patience(t0, t1, e);
    } else {
        let (m, ctrl) = choose|m: TraceV, ctrl: u32| #[trigger]
            sector_set(t0, m, addr, ctrl) && {
                ||| commanded(m, t1, CMD_SE, Some(e))
                ||| exists|s: TraceV| #[trigger]
                    commanded(m, s, CMD_SE, None) && idled(
                        s.wrote(seq![(REG_CTRL, ctrl)]),
                        t1,
                        WIP_POLL_MAX as nat,
                        Some(e),
                    )
            };
        let a = choose|a: TraceV| #[trigger]
            enabled(t0, a, None) && m == a.wrote(seq![(REG_ADDR, addr)]).saw(
                seq![(REG_CTRL, ctrl)],
            ).wrote(seq![(REG_CTRL, 0u32)]);
        lemma_enabled_reads(t0, a);
        if commanded(m, t1, CMD_SE, Some(e)) {
            law_command_patience(m, t1, CMD_SE, e, 0);
        } else {
            let s = choose|s: TraceV| #[trigger]
                commanded(m, s, CMD_SE, None) && idled(
                    s.wrote(seq![(REG_CTRL, ctrl)]),
                    t1,
                    WIP_POLL_MAX as nat,
                    Some(e),
                );
            lemma_command_reads(m, s, CMD_SE);
            lemma_idle_patience(
                s.wrote(seq![(REG_CTRL, ctrl)]),
                t1,
                WIP_POLL_MAX as nat,
                e,
            );
        }
    }
}

/// So does the programming of a chunk.
pub proof fn law_program_patience(t0: TraceV, t1: TraceV, addr: u32, data: Seq<u8>, e: SpiError)
    requires
        chunk_run(t0, t1, addr, data, Some(e)),
    ensures
        e == SpiError::Timeout ==> t1.reads.len() >= t0.reads.len() + 1_000_000,
        e == SpiError::Timeout || (e == SpiError::WriteEnableFailed && t1.reads.len()
            > t0.reads.len() && t1.reads.last().value & 2 == 0),
{
    if enabled(t0, t1, Some(e)) {
        lemma_enable_patience(t0, t1, e);
    } else {
        let (m, user) = choose|m: TraceV, user: u32| #[trigger]
            chunk_set(t0, m, addr, data, user) && {
                ||| commanded(m, t1, CMD_PP, Some(e))
                ||| exists|s: TraceV| #[trigger]
                    commanded(m, s, CMD_PP, None) && idled(s, t1, WIP_POLL_MAX as nat, Some(e))
            };
        lemma_chunk_reads(t0, m, addr, data, user);
        if commanded(m, t1, CMD_PP, Some(e)) {
            law_command_patience(m, t1, CMD_PP, e, 0);
        } else {
            let s = choose|s: TraceV| #[trigger]
                commanded(m, s, CMD_PP, None) && idled(s, t1, WIP_POLL_MAX as nat, Some(e));
            lemma_command_reads(m, s, CMD_PP);
            lemma_idle_patience(s, t1, WIP_POLL_MAX as nat, e);
        }
    }
}

proof fn lemma_chunk_reads(t0: TraceV, m: TraceV, addr: u32, data: Seq<u8>, user: u32)
    requires
        chunk_set(t0, m, addr, data, user),
    ensures
        m.reads.len() >= t0.reads.len(),
{
    let a = choose|a: TraceV| #[trigger]
        enabled(t0, a, None) && m == a.wrote(
            seq![(REG_ADDR, (addr & 0x00FF_FFFFu32) | ((data.len() as u32) << 24u32))]
                + word_writes(data, words_for(data.len() as int)),
        ).saw(seq![(REG_USER, user)]).wrote(
            seq![(REG_USER, user & !USER_USR_DUMMY)],
        );
    lemma_enabled_reads(t0, a);
}

/// A chunk is as long as it may be: it ends with the data, fills the 64
/// bytes of the buffer, or ends its page of 256.
pub proof fn law_chunk_is_longest(at: int, left: int)
    requires
        at >= 0,
        left >= 1,
    ensures
        1 <= chunk_len(at, left) <= left,
        chunk_len(at, left) <= 64,
        chunk_len(at, left) == left || chunk_len(at, left) == 64 || (at + chunk_len(at, left)) % 256
            == 0,
{
}

/// A byte of the data stands in its word at its place, lowest first, and
/// past the end of the data there is nothing.
pub proof fn law_word_holds_bytes(data: Seq<u8>, w: int, b: int)
    requires
        0 <= w,
        0 <= b < 4,
    ensures
        4 * w + b < data.len() ==> byte_of(word_of(data, w), b) == data[4 * w + b],
        4 * w + b >= data.len() ==> byte_of(word_of(data, w), b) == 0,
{
    let p = lane(data, 4 * w);
    let q = lane(data, 4 * w + 1);
    let r = lane(data, 4 * w + 2);
    let s = lane(data, 4 * w + 3);
    let v = word_of(data, w);
    assert((v >> 0u32) & 0xFFu32 == p && (v >> 8u32) & 0xFFu32 == q && (v >> 16u32) & 0xFFu32 == r
        && (v >> 24u32) & 0xFFu32 == s) by (bit_vector)
        requires
            v == p | (q << 8u32) | (r << 16u32) | (s << 24u32),
            p <= 0xFFu32,
            q <= 0xFFu32,
            r <= 0xFFu32,
            s <= 0xFFu32,
    ;
}

/// The registers of an erase: write enable and status, the address, the
/// control register cleared for the erase command and then restored, and
/// status polls.
pub proof fn law_erase_registers(addr: u32, ctrl: u32, n: nat, i: int)
    requires
        0 <= i < n,
    ensures
        erase_writes(addr, ctrl, n).len() == 6 + n,
        erase_writes(addr, ctrl, n)[0] == (0usize, 0x4000_0000u32),
        erase_writes(addr, ctrl, n)[1] == (0usize, 0x0800_0000u32),
        erase_writes(addr, ctrl, n)[2] == (4usize, addr),
        erase_writes(addr, ctrl, n)[3] == (8usize, 0u32),
        erase_writes(addr, ctrl, n)[4] == (0usize, 0x0100_0000u32),
        erase_writes(addr, ctrl, n)[5] == (8usize, ctrl),
        erase_writes(addr, ctrl, n)[6 + i] == (0usize, 0x0800_0000u32),
{
    assert(status_polls(n)[i] == (REG_CMD, CMD_RDSR));
}

/// The registers of a chunk: write enable and status, the low 24 bits of
/// the address under the length, the data words from the first buffer
/// register on, the user register without its dummy phase, the program
/// command, and status polls.
pub proof fn law_chunk_registers(
    addr: u32,
    data: Seq<u8>,
    user: u32,
    n: nat,
    w: int,
    i: int,
)
    requires
        addr < 0x100_0000,
        1 <= data.len() <= 64,
        0 <= w,
        4 * w < data.len(),
        0 <= i < n,
    ensures
        ({
            let ws = chunk_writes(addr, data, user, n);
            let k = (data.len() as int + 3) / 4;
            &&& ws.len() == 5 + k + n
            &&& ws[0] == (0usize, 0x4000_0000u32)
            &&& ws[1] == (0usize, 0x0800_0000u32)
            &&& ws[2] == (4usize, (addr + 0x100_0000 * data.len()) as u32)
            &&& ws[3 + w].0 == 0x58 + 4 * w
            &&& byte_of(ws[3 + w].1, 0) == data[4 * w]
            &&& ws[3 + k].0 == 0x18 && ws[3 + k].1 & 0x2000_0000 == 0 && ws[3 + k].1 & 0xDFFF_FFFF
                == user & 0xDFFF_FFFF
            &&& ws[4 + k] == (0usize, 0x0200_0000u32)
            &&& ws[5 + k + i] == (0usize, 0x0800_0000u32)
        }),
{
    let k = words_for(data.len() as int) as int;
    let words = word_writes(data, k as nat);
    let len = data.len() as u32;
    assert(status_polls(n)[i] == (REG_CMD, CMD_RDSR));
    law_word_holds_bytes(data, w, 0);
    assert(words[w] == ((0x58 + 4 * w) as usize, word_of(data, w)));
    assert((addr & 0x00FF_FFFFu32) | (len << 24u32) == addr + 0x100_0000u32 * len) by (bit_vector)
        requires
            addr < 0x100_0000u32,
            len <= 64,
    ;
    assert((user & !0x2000_0000u32) & 0x2000_0000u32 == 0 && (user & !0x2000_0000u32)
        & 0xDFFF_FFFFu32 == user & 0xDFFF_FFFFu32) by (bit_vector);
}

/// The registers of a read: an 8-bit read opcode, a 24-bit address, the
/// number of bits less one, the command, address and data-in phases, the
/// address, and the user command.
pub proof fn law_read_registers(addr: u32, n: u32)
    requires
        1 <= n <= 64,
    ensures
        read_writes(addr, n) =~= seq![
            (0x20usize, 0x7000_0003u32),
            (0x1Cusize, 0x5C00_0000u32),
            (0x28usize, (8 * n - 1) as u32),
            (0x18usize, 0xD000_0000u32),
            (4usize, addr),
            (0usize, 0x0004_0000u32),
        ],
{
    assert((7u32 << 28u32) | 3u32 == 0x7000_0003u32) by (bit_vector);
    assert(23u32 << 26u32 == 0x5C00_0000u32) by (bit_vector);
    assert(0x8000_0000u32 | 0x4000_0000u32 | 0x1000_0000u32 == 0xD000_0000u32) by (bit_vector);
}

/// The wait for the chip ends with a status whose busy bit is clear.
pub proof fn law_wait_ends_idle(t0: TraceV, t1: TraceV, left: nat)
    requires
        idled(t0, t1, left, None),
    ensures
        t1.reads.len() > t0.reads.len(),
        t1.reads.last().value & 1 == 0,
    decreases left,
{
    let (m, status) = choose|m: TraceV, status: u32| #[trigger]
        fetched(t0, m, status) && (if status & STATUS_WIP == 0 {
            t1 == m
        } else if left == 1 {
            false
        } else {
            idled(m, t1, (left - 1) as nat, None)
        });
    lemma_fetch_reads(t0, m, status);
    if status & STATUS_WIP != 0 {
        law_wait_ends_idle(m, t1, (left - 1) as nat);
    }
}

} // verus!

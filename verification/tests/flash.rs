//! The flash block device and the SPI flash driver, over mocks.

use std::cell::Cell;

use horton::esp32s3::{
    RegBus, SpiError, SpiFlash, CMD_PP, CMD_RDSR, CMD_SE, CMD_USR, CMD_WREN, REG_ADDR, REG_CMD,
    REG_CTRL, REG_RD_STATUS, REG_USER, REG_W0, STATUS_WEL, STATUS_WIP, USER_USR_DUMMY,
};
use horton::flash::{Flash, FlashBlockDevice, FlashError};
use horton::profile::{Esp32S3Db, ESP32S3_RAM_BUDGET};
use horton::{BlockDevice, Config, Error};

/// A NOR chip: erase sets, program clears.
struct Nor {
    cells: Vec<u8>,
    erases: Cell<u32>,
}

#[derive(Debug, Clone, Copy, PartialEq, Eq)]
enum NorError {
    Range,
    Misaligned,
    NotErased,
}

impl Nor {
    fn new(sectors: usize) -> Self {
        Nor {
            cells: vec![0u8; sectors * 4096],
            erases: Cell::new(0),
        }
    }
}

impl Flash for Nor {
    type Error = NorError;
    const SECTOR: usize = 4096;

    fn read(&self, addr: u32, buf: &mut [u8]) -> Result<(), NorError> {
        let at = addr as usize;
        let end = at + buf.len();
        buf.copy_from_slice(self.cells.get(at..end).ok_or(NorError::Range)?);
        Ok(())
    }

    fn erase_sector(&mut self, addr: u32) -> Result<(), NorError> {
        let at = addr as usize;
        if at % 4096 != 0 {
            return Err(NorError::Misaligned);
        }
        self.erases.set(self.erases.get() + 1);
        self.cells
            .get_mut(at..at + 4096)
            .ok_or(NorError::Range)?
            .fill(0xFF);
        Ok(())
    }

    fn program(&mut self, addr: u32, data: &[u8]) -> Result<(), NorError> {
        let at = addr as usize;
        let cells = self
            .cells
            .get_mut(at..at + data.len())
            .ok_or(NorError::Range)?;
        for (c, d) in cells.iter_mut().zip(data) {
            if *c & *d != *d {
                return Err(NorError::NotErased);
            }
            *c = *d;
        }
        Ok(())
    }
}

#[test]
fn flash_blocks_are_rewritten() {
    let mut dev = FlashBlockDevice::<Nor, 4096, 3>::new(Nor::new(8), 8192);
    let mut buf = [0u8; 4096];
    dev.write_block(1, &[0x0F; 4096]).unwrap();
    dev.write_block(1, &[0xF0; 4096]).unwrap();
    dev.write_block(2, &[0x55; 4096]).unwrap();
    dev.read_block(1, &mut buf).unwrap();
    assert_eq!(buf, [0xF0; 4096]);
    dev.read_block(2, &mut buf).unwrap();
    assert_eq!(buf, [0x55; 4096]);
    assert_eq!(dev.flush(), Ok(()));
    assert_eq!(
        dev.write_block(3, &[0; 4096]),
        Err(FlashError::BlockOutOfRange { id: 3 })
    );
    let mut far = FlashBlockDevice::<Nor, 4096, 9>::new(Nor::new(1), 0xFFFF_F000);
    assert_eq!(
        far.write_block(1, &[0; 4096]),
        Err(FlashError::AddrOverflow)
    );
    assert_eq!(
        far.read_block(0, &mut buf),
        Err(FlashError::Device(NorError::Range))
    );
}

#[test]
fn database_runs_over_flash() {
    let dev = FlashBlockDevice::<Nor, 4096, 256>::new(Nor::new(256), 0);
    let cfg = Config::new(0, 16, 32, 256, 20, 26);
    let mut db = Box::new(Esp32S3Db::new(dev, cfg));
    db.open().unwrap();
    db.put(b"sensor", b"42").unwrap();
    db.flush().unwrap();
    let dev = db.into_device();
    let mut db = Box::new(Esp32S3Db::new(dev, cfg));
    db.open().unwrap();
    let mut buf = [0u8; 64];
    assert_eq!(db.get(b"sensor", &mut buf), Ok(Some(2)));
    assert_eq!(&buf[..2], b"42");
    assert_eq!(db.get(b"other", &mut buf), Ok(None));
    assert_eq!(db.put(&[0; 33], b""), Err(Error::KeyTooLarge { len: 33, max: 32 }));
    assert_eq!(ESP32S3_RAM_BUDGET, 114_688);
}

/// A bus whose commands complete at once.
struct Bus {
    writes: Vec<(usize, u32)>,
    status: u32,
    stuck: bool,
    ctrl: u32,
    words: [u32; 16],
}

impl Bus {
    fn new() -> Self {
        Bus {
            writes: Vec::new(),
            status: STATUS_WEL,
            stuck: false,
            ctrl: 0x1234,
            words: [0x0403_0201; 16],
        }
    }
}

impl RegBus for Bus {
    fn read(&mut self, offset: usize) -> u32 {
        match offset {
            REG_CMD => {
                if self.stuck {
                    u32::MAX
                } else {
                    0
                }
            }
            REG_RD_STATUS => self.status,
            REG_CTRL => self.ctrl,
            REG_USER => u32::MAX,
            o if o >= REG_W0 => self.words[(o - REG_W0) / 4],
            _ => 0,
        }
    }

    fn write(&mut self, offset: usize, value: u32) {
        self.writes.push((offset, value));
    }
}

#[test]
fn erase_follows_the_command_sequence() {
    let mut f = SpiFlash::new(Bus::new(), 0x1000, 0x4000);
    assert_eq!(f.erase_sector(0x2001), Err(SpiError::Misaligned));
    assert_eq!(f.erase_sector(0), Err(SpiError::OutOfRange));
    assert_eq!(f.erase_sector(0x5000), Err(SpiError::OutOfRange));
    assert!(f.bus().writes.is_empty());
    assert_eq!(f.erase_sector(0x2000), Ok(()));
    assert_eq!(
        f.bus().writes,
        vec![
            (REG_CMD, CMD_WREN),
            (REG_CMD, CMD_RDSR),
            (REG_ADDR, 0x2000),
            (REG_CTRL, 0),
            (REG_CMD, CMD_SE),
            (REG_CTRL, 0x1234),
            (REG_CMD, CMD_RDSR),
        ]
    );
}

#[test]
fn program_splits_at_pages_and_buffers() {
    let mut f = SpiFlash::new(Bus::new(), 0, 0x4000);
    // 10 bytes up to the page's end, then 64, then 6.
    let data: Vec<u8> = (0..80).collect();
    assert_eq!(f.program(246, &data), Ok(()));
    let addrs: Vec<u32> = f
        .bus()
        .writes
        .iter()
        .filter(|w| w.0 == REG_ADDR)
        .map(|w| w.1)
        .collect();
    assert_eq!(
        addrs,
        vec![246 | (10 << 24), 256 | (64 << 24), 320 | (6 << 24)]
    );
    let words: Vec<u32> = f
        .bus()
        .writes
        .iter()
        .filter(|w| w.0 == REG_W0)
        .map(|w| w.1)
        .collect();
    assert_eq!(words, vec![0x0302_0100, 0x0D0C_0B0A, 0x4D4C_4B4A]);
    let programs = f.bus().writes.iter().filter(|w| **w == (REG_CMD, CMD_PP));
    assert_eq!(programs.count(), 3);
    assert_eq!(f.program(0x3FFF, &[0, 0]), Err(SpiError::OutOfRange));
}

#[test]
fn read_takes_the_data_words() {
    let mut f = SpiFlash::new(Bus::new(), 0, 0x4000);
    let mut out = [0u8; 70];
    assert_eq!(f.read(16, &mut out), Ok(()));
    for (i, b) in out.iter().enumerate() {
        assert_eq!(usize::from(*b), if i < 64 { i % 4 } else { (i - 64) % 4 } + 1);
    }
    let reads = f.bus().writes.iter().filter(|w| **w == (REG_CMD, CMD_USR));
    assert_eq!(reads.count(), 2);
}

#[test]
fn stuck_chips_are_reported() {
    let mut bus = Bus::new();
    bus.status = 0;
    let mut f = SpiFlash::new(bus, 0, 0x4000);
    assert_eq!(f.erase_sector(0), Err(SpiError::WriteEnableFailed));
    let mut bus = Bus::new();
    bus.stuck = true;
    let mut f = SpiFlash::new(bus, 0, 0x4000);
    assert_eq!(f.program(0, &[1]), Err(SpiError::Timeout));
    assert_eq!(f.read(0, &mut [0; 4]), Err(SpiError::Timeout));
}

/// One access to a register.
#[derive(Debug, Clone, Copy, PartialEq, Eq)]
enum Access {
    Read(usize),
    Write(usize, u32),
}

/// A bus that logs every access. A command clears at its third read.
struct Log {
    accesses: Vec<Access>,
    pending: u32,
    spins: u32,
    status: Vec<u32>,
}

impl Log {
    fn new(status: Vec<u32>) -> Self {
        Log {
            accesses: Vec::new(),
            pending: 0,
            spins: 0,
            status,
        }
    }
}

impl RegBus for Log {
    fn read(&mut self, offset: usize) -> u32 {
        self.accesses.push(Access::Read(offset));
        match offset {
            REG_CMD => {
                self.spins += 1;
                if self.spins < 3 {
                    self.pending
                } else {
                    0
                }
            }
            REG_RD_STATUS => self.status.remove(0),
            REG_CTRL => 0x55,
            REG_USER => 0xFFFF_FFFF,
            o => o as u32,
        }
    }

    fn write(&mut self, offset: usize, value: u32) {
        self.accesses.push(Access::Write(offset, value));
        if offset == REG_CMD {
            self.pending = value;
            self.spins = 0;
        }
    }
}

/// A command, and the three reads until it is seen clear.
fn command(bit: u32) -> Vec<Access> {
    let mut out = vec![Access::Write(REG_CMD, bit)];
    out.extend([Access::Read(REG_CMD); 3]);
    out
}

/// The latch is set and seen.
fn enabling() -> Vec<Access> {
    let mut out = command(CMD_WREN);
    out.extend(command(CMD_RDSR));
    out.push(Access::Read(REG_RD_STATUS));
    out
}

#[test]
fn erase_waits_for_each_command() {
    // The latch is set; the chip is busy at the first poll.
    let mut f = SpiFlash::new(Log::new(vec![STATUS_WEL, STATUS_WIP, 0]), 0, 0x4000);
    assert_eq!(f.erase_sector(0x1000), Ok(()));
    let mut want = enabling();
    want.push(Access::Write(REG_ADDR, 0x1000));
    want.push(Access::Read(REG_CTRL));
    want.push(Access::Write(REG_CTRL, 0));
    want.extend(command(CMD_SE));
    want.push(Access::Write(REG_CTRL, 0x55));
    for _ in 0..2 {
        want.extend(command(CMD_RDSR));
        want.push(Access::Read(REG_RD_STATUS));
    }
    assert_eq!(f.bus().accesses, want);
}

#[test]
fn erase_stops_at_a_clear_latch() {
    let mut f = SpiFlash::new(Log::new(vec![0]), 0, 0x4000);
    assert_eq!(f.erase_sector(0), Err(SpiError::WriteEnableFailed));
    assert_eq!(f.bus().accesses, enabling());
    let mut f = SpiFlash::new(Log::new(vec![0]), 0, 0x4000);
    assert_eq!(f.program(0, &[1]), Err(SpiError::WriteEnableFailed));
    assert_eq!(f.bus().accesses, enabling());
}

#[test]
fn program_waits_for_each_command() {
    let mut f = SpiFlash::new(Log::new(vec![STATUS_WEL, 0]), 0, 0x4000);
    assert_eq!(f.program(8, &[1, 2, 3, 4, 5]), Ok(()));
    let mut want = enabling();
    want.push(Access::Write(REG_ADDR, 8 | (5 << 24)));
    want.push(Access::Write(REG_W0, 0x0403_0201));
    want.push(Access::Write(REG_W0 + 4, 5));
    want.push(Access::Read(REG_USER));
    want.push(Access::Write(REG_USER, 0xFFFF_FFFF & !USER_USR_DUMMY));
    want.extend(command(CMD_PP));
    want.extend(command(CMD_RDSR));
    want.push(Access::Read(REG_RD_STATUS));
    assert_eq!(f.bus().accesses, want);
}

#[test]
fn words_are_read_after_the_command_clears() {
    let mut f = SpiFlash::new(Log::new(Vec::new()), 0, 0x4000);
    let mut out = [0u8; 6];
    assert_eq!(f.read(0x20, &mut out), Ok(()));
    let tail = f.bus().accesses.len() - 6;
    let mut want = command(CMD_USR);
    want.push(Access::Read(REG_W0));
    want.push(Access::Read(REG_W0 + 4));
    assert_eq!(f.bus().accesses[tail..], want[..]);
    let mut bytes = (REG_W0 as u32).to_le_bytes().to_vec();
    bytes.extend(&(REG_W0 as u32 + 4).to_le_bytes()[..2]);
    assert_eq!(out.to_vec(), bytes);
}

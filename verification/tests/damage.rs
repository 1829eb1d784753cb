//! Damaged blocks, torn tails and refused requests.

use std::cell::RefCell;
use std::rc::Rc;

use horton::esp32s3::{
    RegBus, SpiError, SpiFlash, CMD_PP, CMD_WREN, REG_ADDR, REG_CMD, REG_RD_STATUS, STATUS_WEL,
};
use horton::{
    plan_table, BlockCache, BlockDevice, Compaction, Config, Db, Error, KeyBound, Manifest,
    MemTable, Op, Progress, Scan, SlotMap, SstEntry, TableRef, WalWriter, WriteBatch,
};

#[derive(Debug, Clone, Copy, PartialEq, Eq)]
struct Broken;

/// What was asked of a device.
#[derive(Debug, Clone, Copy, PartialEq, Eq)]
enum Call {
    Write(u64),
    Flush,
}

/// In-memory blocks that note every change asked of them.
struct Ram {
    blocks: Vec<[u8; 512]>,
    calls: Rc<RefCell<Vec<Call>>>,
}

impl Ram {
    fn new() -> Self {
        Ram {
            blocks: vec![[0u8; 512]; 1200],
            calls: Rc::new(RefCell::new(Vec::new())),
        }
    }
}

impl BlockDevice for Ram {
    type Error = Broken;
    const BLOCK: usize = 512;

    fn read_block(&self, id: u64, buf: &mut [u8]) -> Result<(), Broken> {
        let b = self.blocks.get(id as usize).ok_or(Broken)?;
        buf.copy_from_slice(b);
        Ok(())
    }

    fn write_block(&mut self, id: u64, buf: &[u8]) -> Result<(), Broken> {
        let b = self.blocks.get_mut(id as usize).ok_or(Broken)?;
        b.copy_from_slice(buf);
        self.calls.borrow_mut().push(Call::Write(id));
        Ok(())
    }

    fn flush(&mut self) -> Result<(), Broken> {
        self.calls.borrow_mut().push(Call::Flush);
        Ok(())
    }
}

type TestDb = Db<Ram, 512, 16, 32, 8, 512, 3, 2, 16, 2>;
type TestScan = Scan<512, 16, 32, 3, 2>;
type Man = Manifest<3, 2, 16>;

fn config() -> Config {
    Config::new(0, 16, 64, 1064, 20, 40)
}

fn fresh() -> TestDb {
    let mut db = TestDb::new(Ram::new(), config());
    db.open().unwrap();
    db
}

fn read_at(db: &mut TestDb, key: &[u8], max_seq: u64) -> Option<Vec<u8>> {
    let mut buf = [0u8; 32];
    let n = db.get_at(key, &mut buf, max_seq).unwrap();
    n.map(|n| buf[..n].to_vec())
}

#[test]
fn cache_replaces_a_held_block() {
    let mut c = BlockCache::<1, 2>::new();
    c.put(1, 1, &[1], true);
    c.put(1, 1, &[2], true);
    let mut out = [0u8; 1];
    assert!(c.get_into(1, 1, &mut out));
    assert_eq!(out, [2]);
    assert_eq!(c.stats().len, 1);
}

#[test]
fn empty_run_has_no_footer() {
    let mut t = TableRef::<16>::empty();
    t.first_block = 5;
    t.block_count = 0;
    assert_eq!(t.footer_block(), None);
    t.block_count = 3;
    assert_eq!(t.footer_block(), Some(7));
}

#[test]
fn plan_checks_every_key() {
    let row = |key: &'static [u8]| SstEntry {
        key,
        val: b"",
        seq: 1,
        tombstone: false,
        expire_at: 0,
    };
    let rows = [row(b"a"), row(b"bb"), row(b"c")];
    assert!(matches!(
        plan_table::<Broken, 512, 1>(&rows),
        Err(Error::KeyTooLarge { len: 2, max: 1 })
    ));
}

#[test]
fn torn_tail_is_erased_by_the_next_commit() {
    let mut w = WalWriter::<Ram, 512>::new(Ram::new(), 2, 8);
    w.append(1, Op::Put, b"a", b"1").unwrap();
    w.append(2, Op::Put, b"b", b"2").unwrap();
    w.commit().unwrap();
    let mut ram = w.into_device();
    // The second record's last bytes are damaged.
    let used = 512 - ram.blocks[2].iter().rev().take_while(|b| **b == 0).count();
    ram.blocks[2][used - 1] ^= 0xFF;
    let first = ram.blocks[2];
    let calls = ram.calls.clone();
    let mut w = WalWriter::<Ram, 512>::new(ram, 2, 8);
    let mut t = MemTable::<16, 512, 16, 32>::new();
    let rep = w.recover(&mut t).unwrap();
    assert_eq!((rep.records, rep.max_seq, rep.blocks_used), (1, 1, 1));
    calls.borrow_mut().clear();
    w.append(3, Op::Put, b"c", b"3").unwrap();
    w.commit().unwrap();
    assert_eq!(*calls.borrow(), vec![Call::Write(3), Call::Flush]);
    calls.borrow_mut().clear();
    w.commit().unwrap();
    assert!(!calls.borrow().iter().any(|c| matches!(c, Call::Write(_))));
    let ram = w.into_device();
    assert_eq!(ram.blocks[2], first);
    let used = 512 - ram.blocks[3].iter().rev().take_while(|b| **b == 0).count();
    assert_eq!(used, 23 + 2);
}

/// A bus on which every command completes at once.
struct Ready {
    writes: Vec<(usize, u32)>,
}

impl RegBus for Ready {
    fn read(&mut self, offset: usize) -> u32 {
        if offset == REG_RD_STATUS {
            STATUS_WEL
        } else {
            0
        }
    }

    fn write(&mut self, offset: usize, value: u32) {
        self.writes.push((offset, value));
    }
}

#[test]
fn programming_enables_writes_for_each_page() {
    let mut f = SpiFlash::new(Ready { writes: Vec::new() }, 0, 4096);
    assert_eq!(f.program(4090, &[7; 10]), Err(SpiError::OutOfRange));
    assert!(f.bus().writes.is_empty());
    assert_eq!(f.program(250, &[7; 10]), Ok(()));
    let addrs: Vec<u32> = f
        .bus()
        .writes
        .iter()
        .filter(|w| w.0 == REG_ADDR)
        .map(|w| w.1)
        .collect();
    assert_eq!(addrs, [0x0600_00FA, 0x0400_0100]);
    let commands: Vec<u32> = f
        .bus()
        .writes
        .iter()
        .filter(|w| w.0 == REG_CMD && (w.1 == CMD_PP || w.1 == CMD_WREN))
        .map(|w| w.1)
        .collect();
    assert_eq!(commands, [CMD_WREN, CMD_PP, CMD_WREN, CMD_PP]);
}

#[test]
fn unpositioned_scan_yields_nothing() {
    let mut db = fresh();
    db.put(b"a", b"1").unwrap();
    let mut scan = Box::new(TestScan::new());
    let mut key = [0u8; 16];
    let mut val = [0u8; 32];
    assert_eq!(scan.next(&mut db, &mut key, &mut val), Ok(None));
    scan.seek(&db, b"", None, u64::MAX).unwrap();
    assert_eq!(scan.next(&mut db, &mut key, &mut val), Ok(Some((1, 1))));
    assert_eq!(scan.next(&mut db, &mut key, &mut val), Ok(None));
}

#[test]
fn scan_reports_a_damaged_block() {
    let mut db = fresh();
    db.put(b"a", &[1; 20]).unwrap();
    db.put(b"b", &[2; 20]).unwrap();
    db.flush().unwrap();
    let mut ram = db.into_device();
    // The table's first data block.
    let table = (64..1064)
        .find(|&i| ram.blocks[i].iter().any(|b| *b != 0))
        .unwrap();
    ram.blocks[table][3] ^= 1;
    let mut db = TestDb::new(ram, config());
    db.open().unwrap();
    let mut scan = Box::new(TestScan::new());
    let at = table as u64;
    assert_eq!(
        scan.seek(&db, b"", None, u64::MAX),
        Err(Error::CorruptBlock { id: at })
    );
}

#[test]
fn manifests_open_whatever_the_table_ids() {
    let mut ram = Ram::new();
    let mut scratch = [0u8; 512];
    let mut m = Man::new();
    let mut t = TableRef::<16>::empty();
    // An id that was never issued, twice.
    t.id = 7;
    t.first_block = 64;
    t.block_count = 4;
    t.first_key = KeyBound::from_slice(b"a").unwrap();
    t.last_key = KeyBound::from_slice(b"b").unwrap();
    t.max_seq = 1;
    t.min_seq = 1;
    t.entry_count = 1;
    m.add_l0_table::<Broken>(t).unwrap();
    t.first_block = 64 + 166;
    m.add_l0_table::<Broken>(t).unwrap();
    m.commit(&mut ram, &mut scratch, 20, 40).unwrap();
    let mut db = TestDb::new(ram, config());
    assert_eq!(db.open().unwrap().l0_tables, 2);
    // Two tables in one slot are another matter.
    let mut ram = db.into_device();
    let mut m = Man::new();
    m.add_l0_table::<Broken>(t).unwrap();
    t.id = 8;
    m.add_l0_table::<Broken>(t).unwrap();
    m.set_wal_head(0);
    m.commit(&mut ram, &mut scratch, 20, 40).unwrap();
    m.commit(&mut ram, &mut scratch, 20, 40).unwrap();
    let mut db = TestDb::new(ram, config());
    assert!(matches!(db.open(), Err(Error::CorruptManifest)));
}

#[test]
fn bad_regions_come_before_a_corrupt_manifest() {
    let mut ram = Ram::new();
    ram.blocks[20] = [3; 512];
    ram.blocks[40] = [3; 512];
    let mut db = TestDb::new(ram, config());
    assert!(matches!(db.open(), Err(Error::CorruptManifest)));
    let overlapping = Config::new(0, 16, 10, 1064, 20, 40);
    let mut db = TestDb::new(db.into_device(), overlapping);
    assert!(matches!(db.open(), Err(Error::BadConfig)));
}

#[test]
fn every_flipped_manifest_bit_is_found() {
    let mut m = Man::new();
    m.set_wal_head(9);
    m.note_flushed(6);
    let mut block = [0u8; 512];
    m.encode::<Broken, 512>(&mut block).unwrap();
    let used = 512 - block.iter().rev().take_while(|b| **b == 0).count();
    assert!(Man::decode::<Broken, 512>(&block).is_ok());
    for i in (0..20).chain(24..used) {
        for bit in 0..8 {
            block[i] ^= 1 << bit;
            assert!(matches!(
                Man::decode::<Broken, 512>(&block),
                Err(Error::CorruptManifest)
            ));
            block[i] ^= 1 << bit;
        }
    }
}

#[test]
fn runs_of_commits_recover_the_last_whole_one() {
    let mut ram = Ram::new();
    let mut scratch = [0u8; 512];
    let (mut m, blank) = Man::recover(&mut ram, &mut scratch, 20, 40).unwrap();
    assert!(blank);
    for i in 1..=5u64 {
        m.set_wal_head(10 + i);
        m.commit(&mut ram, &mut scratch, 20, 40).unwrap();
        let (got, blank) = Man::recover(&mut ram, &mut scratch, 20, 40).unwrap();
        assert!(!blank);
        assert_eq!((got.seq(), got.wal_head()), (i, 10 + i));
        // Torn, it leaves the one before.
        let last = ram
            .calls
            .borrow()
            .iter()
            .rev()
            .find(|c| **c == Call::Write(20) || **c == Call::Write(40))
            .copied();
        let newest = if last == Some(Call::Write(20)) { 20 } else { 40 };
        let kept = ram.blocks[newest];
        ram.blocks[newest][30] ^= 0xFF;
        let torn = Man::recover(&mut ram, &mut scratch, 20, 40).unwrap();
        if i == 1 {
            assert!(torn.1);
        } else {
            assert_eq!((torn.0.seq(), torn.0.wal_head()), (i - 1, 9 + i));
        }
        ram.blocks[newest] = kept;
    }
}

#[test]
fn slot_counts_move_by_one() {
    let mut m = SlotMap::layout(0, 40, 4, 10).unwrap();
    let s = m.reserve().unwrap();
    assert_eq!((m.used_slots(), m.reserved_slots(), m.free_slots()), (0, 1, 3));
    m.release(s);
    assert_eq!((m.used_slots(), m.reserved_slots(), m.free_slots()), (0, 0, 4));
    let s = m.reserve().unwrap();
    m.commit(s);
    assert_eq!((m.used_slots(), m.reserved_slots(), m.free_slots()), (1, 0, 3));
    for _ in 0..3 {
        assert!(m.reserve().is_some());
    }
    assert_eq!(m.reserve(), None);
    assert_eq!((m.used_slots(), m.reserved_slots(), m.free_slots()), (1, 3, 0));
}

#[test]
fn batch_ops_show_at_their_own_sequences() {
    let mut db = fresh();
    db.put(b"k", b"0").unwrap();
    let mut ops = WriteBatch::<16, 32, 4>::new();
    ops.put(b"k", b"1").unwrap();
    ops.delete(b"k").unwrap();
    ops.put(b"k", b"3").unwrap();
    let first = db.write(&ops).unwrap();
    assert_eq!(read_at(&mut db, b"k", first - 1), Some(b"0".to_vec()));
    assert_eq!(read_at(&mut db, b"k", first), Some(b"1".to_vec()));
    assert_eq!(read_at(&mut db, b"k", first + 1), None);
    assert_eq!(read_at(&mut db, b"k", first + 2), Some(b"3".to_vec()));
}

#[test]
fn snapshot_holds_over_a_run_of_calls() {
    let mut db = fresh();
    db.put(b"k", b"old").unwrap();
    let snap = db.snapshot().unwrap();
    let mut scratch = Box::new(Compaction::<512, 16, 32, 16>::new());
    for i in 0..6u8 {
        db.put(b"k", &[i]).unwrap();
        db.delete(b"j").unwrap();
        db.flush().unwrap();
        for _ in 0..100 {
            let step = db.compact_step(&mut scratch).unwrap();
            assert_eq!(read_at(&mut db, b"k", snap), Some(b"old".to_vec()));
            assert_eq!(read_at(&mut db, b"k", u64::MAX), Some(vec![i]));
            if step == Progress::Done && !db.compaction_pending() {
                break;
            }
        }
    }
}

#[test]
fn no_damage_shortens_a_scan() {
    let mut db = fresh();
    let mut scratch = Box::new(Compaction::<512, 16, 32, 16>::new());
    let rows: Vec<(Vec<u8>, Vec<u8>)> = (0..12u8)
        .map(|i| (format!("key-{i:02}-padded").into_bytes(), vec![i; 32]))
        .collect();
    for part in rows.chunks(6) {
        for (k, v) in part {
            db.put(k, v).unwrap();
        }
        db.flush().unwrap();
    }
    while db.compact_step(&mut scratch).unwrap() == Progress::More {}
    let blocks = db.into_device().blocks;
    let mut told = 0;
    for at in (64..1064).filter(|&i| blocks[i].iter().any(|b| *b != 0)) {
        let mut ram = Ram::new();
        ram.blocks = blocks.clone();
        ram.blocks[at][1] ^= 0x10;
        let mut db = TestDb::new(ram, config());
        db.open().unwrap();
        let mut scan = Box::new(TestScan::new());
        let mut got = Vec::new();
        let mut key = [0u8; 16];
        let mut val = [0u8; 32];
        let mut end = scan.seek(&db, b"", None, u64::MAX);
        if end.is_ok() {
            loop {
                match scan.next(&mut db, &mut key, &mut val) {
                    Ok(Some((k, v))) => got.push((key[..k].to_vec(), val[..v].to_vec())),
                    Ok(None) => break,
                    Err(e) => {
                        end = Err(e);
                        break;
                    }
                }
            }
        }
        match end {
            Ok(()) => assert_eq!(got, rows),
            Err(e) => {
                assert!(matches!(e, Error::CorruptBlock { .. }));
                assert_eq!(got[..], rows[..got.len()]);
                told += 1;
            }
        }
    }
    assert!(told > 0);
}

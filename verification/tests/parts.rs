//! The parts under the database, each on its own.

use horton::compress::{decompress, CompressScratch};
use horton::profile::{Esp32S3Compaction, Esp32S3Db, Esp32S3Scan, ESP32S3_RAM_BUDGET};
use horton::region::{Bump, FreeList};
use horton::{crc32, BlockCache, BlockDevice, Error, KeyBound, MemTable, SlotMap};

type Never = core::convert::Infallible;

/// A device that stores nothing.
struct NoFlash;

impl BlockDevice for NoFlash {
    type Error = ();
    const BLOCK: usize = 4096;

    fn read_block(&self, _id: u64, _buf: &mut [u8]) -> Result<(), ()> {
        Err(())
    }

    fn write_block(&mut self, _id: u64, _buf: &[u8]) -> Result<(), ()> {
        Err(())
    }

    fn flush(&mut self) -> Result<(), ()> {
        Err(())
    }
}

#[test]
fn crc_of_the_check_string() {
    assert_eq!(crc32(b"123456789"), 0xCBF4_3926);
    assert_eq!(crc32(b""), 0);
    assert_eq!(crc32(b"a"), 0xE8B7_BE43);
}

#[test]
fn compression_undoes_itself() {
    let mut scratch = Box::new(CompressScratch::<4096>::new());
    let mut src = Vec::new();
    for i in 0..4092usize {
        src.push(b"abcabcd"[i % 7]);
    }
    let n = scratch.compress(&src).unwrap();
    assert!(n + 128 <= src.len());
    let packed = scratch.compressed()[..n].to_vec();
    let mut out = vec![0u8; 4092];
    assert_eq!(decompress(&packed, &mut out), Ok(4092));
    assert_eq!(out, src);
    // Only whole payloads are compressed, and only where it pays.
    assert_eq!(scratch.compress(&src[..4000]), None);
    let noise: Vec<u8> = (0..4092u32)
        .map(|i| (i.wrapping_mul(2_654_435_761) >> 13) as u8)
        .collect();
    if let Some(n) = scratch.compress(&noise) {
        assert!(n + 128 <= noise.len());
    }
    assert!(decompress(&[0xFF, 0xFF, 0xFF], &mut out).is_err());
}

#[test]
fn memtable_orders_and_shadows() {
    let mut t = MemTable::<4, 64, 8, 16>::new();
    t.insert::<Never>(b"b", b"1", 1, false).unwrap();
    t.insert::<Never>(b"a", b"2", 2, false).unwrap();
    t.insert::<Never>(b"b", b"3", 3, false).unwrap();
    t.insert_range_del::<Never>(b"a", b"b", 4).unwrap();
    assert_eq!(t.len(), 4);
    assert_eq!(t.max_seq(), 4);
    assert_eq!(t.get(b"b").unwrap().val, b"3");
    assert_eq!(t.get_at(b"b", 2).unwrap().val, b"1");
    assert_eq!(t.max_covering_rdel(b"a", u64::MAX), Some(4));
    assert_eq!(t.max_covering_rdel(b"b", u64::MAX), None);
    assert_eq!(
        t.insert::<Never>(b"c", b"", 5, false),
        Err(Error::TableFull)
    );
    assert_eq!(t.insert::<Never>(b"", b"", 5, false), Err(Error::EmptyKey));
    let keys: Vec<Vec<u8>> = (0..t.len())
        .map(|i| t.slot_view(i).unwrap().key.to_vec())
        .collect();
    assert!(keys.windows(2).all(|w| w[0] <= w[1]));
    t.clear();
    assert!(t.is_empty());
}

#[test]
fn arena_is_bounded() {
    let mut t = MemTable::<8, 16, 8, 16>::new();
    t.insert::<Never>(b"k", &[0; 15], 1, false).unwrap();
    assert_eq!(t.insert::<Never>(b"l", b"", 2, false), Err(Error::ArenaFull));
}

#[test]
fn slots_rotate() {
    let mut m = SlotMap::layout(100, 140, 4, 10).unwrap();
    assert!(SlotMap::layout(100, 140, 4, 11).is_none());
    assert_eq!(m.slot_blocks(), 10);
    assert_eq!(m.slot_base(3), 130);
    // Any slot has a place, laid out or not.
    assert_eq!(m.slot_base(7), 170);
    assert_eq!(m.slot_of(112, 5), Some(1));
    assert_eq!(m.slot_of(118, 5), None);
    assert_eq!(m.reserve(), Some(0));
    m.commit(0);
    assert_eq!(m.reserve(), Some(1));
    m.release(1);
    m.free(0);
    // The hint moved on: the freed slot is not the next one.
    assert_eq!(m.reserve(), Some(2));
    assert_eq!(m.used_slots(), 0);
    assert_eq!(m.reserved_slots(), 1);
    assert_eq!(m.free_slots(), 3);
}

#[test]
fn regions_hand_out_runs() {
    let mut b = Bump::new(5, 9);
    assert_eq!(b.alloc_one::<Never>(), Ok(5));
    assert_eq!(b.peek_run::<Never>(3), Ok(6));
    assert_eq!(b.alloc_run::<Never>(3), Ok(6));
    assert_eq!(b.alloc_one::<Never>(), Err(Error::NoSpace));
    let mut f = FreeList::<4>::new();
    for id in [9, 3, 4, 7] {
        f.insert::<Never>(id).unwrap();
    }
    assert_eq!(f.insert::<Never>(1), Err(Error::NoSpace));
    assert_eq!(f.find_run(2), Some(3));
    assert_eq!(f.find_run(3), None);
    assert!(!f.claim_run(4, 2));
    assert!(f.claim_run(3, 2));
    assert_eq!(f.len(), 2);
    assert_eq!(f.find_run(1), Some(7));
}

#[test]
fn cache_serves_and_forgets() {
    let mut c = BlockCache::<16, 2>::new();
    let mut out = [0u8; 16];
    assert!(!c.get_into(1, 5, &mut out));
    c.put(1, 5, &[7; 16], false);
    assert!(c.get_into(1, 5, &mut out));
    assert_eq!(out, [7; 16]);
    assert!(!c.get_into(2, 5, &mut out));
    c.invalidate_table(1);
    assert!(!c.get_into(1, 5, &mut out));
    assert_eq!(c.stats().hits, 1);
    assert_eq!(c.stats().misses, 3);
}

#[test]
fn key_bounds_compare_as_bytes() {
    let a = KeyBound::<4>::from_slice(b"ab").unwrap();
    let b = KeyBound::<4>::from_slice(b"abc").unwrap();
    assert!(KeyBound::<4>::from_slice(b"abcde").is_none());
    assert_eq!(a.min(b).as_slice(), b"ab");
    assert_eq!(a.max(b).as_slice(), b"abc");
    assert_eq!(a.successor().unwrap().as_slice(), b"ab\0");
    let full = KeyBound::<4>::from_slice(b"abcd").unwrap();
    assert_eq!(full.successor().unwrap().as_slice(), b"abce");
}

#[test]
fn key_bounds_are_zero_padded() {
    let a = KeyBound::<4>::from_slice(b"ac").unwrap();
    assert_eq!(a.bytes, *b"ac\0\0");
    assert_eq!(KeyBound::<4>::empty().bytes, [0; 4]);
    // So bounds of the same key are equal, whichever way they came about.
    let last = KeyBound::<4>::from_slice(b"ab\xFF\xFF").unwrap();
    assert_eq!(last.successor(), Some(a));
}

#[test]
fn profile_types_stay_in_the_budget() {
    let db = core::mem::size_of::<Esp32S3Db<NoFlash>>();
    let scan = core::mem::size_of::<Esp32S3Scan>();
    let compaction = core::mem::size_of::<Esp32S3Compaction>();
    println!("db {db}, scan {scan}, compaction {compaction}");
    assert!(db + scan + compaction < ESP32S3_RAM_BUDGET);
    // A scan holds one block read from the device and one unpacked.
    assert!(scan < 4 * 4096);
}

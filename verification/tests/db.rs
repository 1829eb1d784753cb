//! The database over an in-memory device.

use horton::{BlockDevice, Compaction, Config, Db, Error, Progress, Scan, WriteBatch};

/// In-memory blocks; `fail_writes` makes every write fail.
struct Ram {
    blocks: Vec<[u8; 512]>,
    fail_writes: bool,
}

#[derive(Debug, Clone, Copy, PartialEq, Eq)]
struct Broken;

impl Ram {
    fn new() -> Self {
        Ram {
            blocks: vec![[0u8; 512]; 1200],
            fail_writes: false,
        }
    }
}

impl BlockDevice for Ram {
    type Error = Broken;
    const BLOCK: usize = 512;

    fn read_block(&self, id: u64, buf: &mut [u8]) -> Result<(), Broken> {
        let b = self.blocks.get(id as usize).ok_or(Broken)?;
        buf.copy_from_slice(b);
        Ok(())
    }

    fn write_block(&mut self, id: u64, buf: &[u8]) -> Result<(), Broken> {
        if self.fail_writes {
            return Err(Broken);
        }
        let b = self.blocks.get_mut(id as usize).ok_or(Broken)?;
        b.copy_from_slice(buf);
        Ok(())
    }

    fn flush(&mut self) -> Result<(), Broken> {
        Ok(())
    }
}

type TestDb = Db<Ram, 512, 16, 32, 8, 512, 3, 2, 16, 2>;
type TestScan = Scan<512, 16, 32, 3, 2>;
type TestCompaction = Compaction<512, 16, 32, 16>;

fn config() -> Config {
    Config::new(0, 16, 64, 1064, 20, 40)
}

fn fresh() -> TestDb {
    let mut db = TestDb::new(Ram::new(), config());
    let report = db.open().unwrap();
    assert_eq!(report.recovered_records, 0);
    assert_eq!(report.max_seq, 0);
    assert_eq!(report.l0_tables, 0);
    db
}

fn reopen(db: TestDb) -> TestDb {
    let mut db = TestDb::new(db.into_device(), config());
    db.open().unwrap();
    db
}

fn read(db: &mut TestDb, key: &[u8]) -> Option<Vec<u8>> {
    read_at(db, key, u64::MAX, 0)
}

fn read_at(db: &mut TestDb, key: &[u8], max_seq: u64, now: u64) -> Option<Vec<u8>> {
    let mut buf = [0u8; 32];
    let n = db.get_at_with_time(key, &mut buf, max_seq, now).unwrap();
    n.map(|n| buf[..n].to_vec())
}

fn settle(db: &mut TestDb) {
    let mut scratch = Box::new(TestCompaction::new());
    for _ in 0..1000 {
        match db.compact_step(&mut scratch).unwrap() {
            Progress::Done if !db.compaction_pending() => return,
            _ => {
                assert_eq!(db.check_invariants(), Ok(()));
            }
        }
    }
    panic!("compaction does not settle");
}

#[test]
fn put_get_delete() {
    let mut db = fresh();
    assert_eq!(db.put(b"k", b"one"), Ok(1));
    assert_eq!(db.put(b"k", b"two"), Ok(2));
    assert_eq!(read(&mut db, b"k"), Some(b"two".to_vec()));
    assert_eq!(read_at(&mut db, b"k", 1, 0), Some(b"one".to_vec()));
    assert_eq!(db.delete(b"k"), Ok(3));
    assert_eq!(read(&mut db, b"k"), None);
    assert_eq!(read(&mut db, b"absent"), None);
    assert_eq!(db.check_invariants(), Ok(()));
}

#[test]
fn refused_requests_change_nothing() {
    let mut db = fresh();
    assert_eq!(db.put(b"", b"v"), Err(Error::EmptyKey));
    assert_eq!(
        db.put(&[b'k'; 17], b"v"),
        Err(Error::KeyTooLarge { len: 17, max: 16 })
    );
    assert_eq!(
        db.put(b"k", &[0; 33]),
        Err(Error::ValueTooLarge { len: 33, max: 32 })
    );
    let mut small = [0u8; 2];
    db.put(b"k", b"long").unwrap();
    assert_eq!(
        db.get(b"k", &mut small),
        Err(Error::BufferTooSmall { need: 4 })
    );
    assert_eq!(small, [0, 0]);
    assert_eq!(read(&mut db, b"k"), Some(b"long".to_vec()));
}

#[test]
fn unopened_handle_is_refused() {
    let mut db = TestDb::new(Ram::new(), config());
    let mut buf = [0u8; 32];
    assert!(!db.is_open());
    assert_eq!(db.put(b"k", b"v"), Err(Error::NotOpen));
    assert_eq!(db.get(b"k", &mut buf), Err(Error::NotOpen));
    assert_eq!(db.flush(), Err(Error::NotOpen));
    let mut scan = TestScan::new();
    assert_eq!(scan.seek(&db, b"", None, u64::MAX), Err(Error::NotOpen));
}

#[test]
fn bad_regions_are_refused() {
    let mut db = TestDb::new(Ram::new(), Config::new(0, 0, 64, 1064, 20, 40));
    assert_eq!(db.open().map(|_| ()), Err(Error::BadConfig));
    let mut db = TestDb::new(Ram::new(), Config::new(0, 16, 8, 1064, 20, 40));
    assert_eq!(db.open().map(|_| ()), Err(Error::BadConfig));
}

#[test]
fn snapshots_are_stable() {
    let mut db = fresh();
    db.put(b"a", b"1").unwrap();
    let snap = db.snapshot().unwrap();
    assert_eq!(snap, 1);
    db.put(b"a", b"2").unwrap();
    db.delete_range(b"a", b"z").unwrap();
    assert_eq!(read_at(&mut db, b"a", snap, 0), Some(b"1".to_vec()));
    assert_eq!(read(&mut db, b"a"), None);
    db.flush().unwrap();
    assert_eq!(read_at(&mut db, b"a", snap, 0), Some(b"1".to_vec()));
    assert_eq!(read(&mut db, b"a"), None);
    assert_eq!(db.oldest_snapshot_seq(), 1);
    db.release_snapshot(snap);
    assert_eq!(db.oldest_snapshot_seq(), u64::MAX);
    for _ in 0..8 {
        db.snapshot().unwrap();
    }
    assert_eq!(db.snapshot(), Err(Error::SnapshotLimit));
}

#[test]
fn log_is_replayed_on_open() {
    let mut db = fresh();
    db.put(b"a", b"1").unwrap();
    db.put_with_ttl(b"t", b"ttl", 100).unwrap();
    db.delete_range(b"m", b"p").unwrap();
    db.put(b"n", b"after").unwrap();
    let mut db = TestDb::new(db.into_device(), config());
    let report = db.open().unwrap();
    assert_eq!(report.recovered_records, 4);
    assert_eq!(report.max_seq, 4);
    assert_eq!(read(&mut db, b"a"), Some(b"1".to_vec()));
    assert_eq!(read(&mut db, b"n"), Some(b"after".to_vec()));
    assert_eq!(read_at(&mut db, b"t", u64::MAX, 99), Some(b"ttl".to_vec()));
    assert_eq!(read_at(&mut db, b"t", u64::MAX, 100), None);
    assert_eq!(db.put(b"b", b"2"), Ok(5));
}

#[test]
fn flush_moves_to_a_table() {
    let mut db = fresh();
    db.put(b"a", b"1").unwrap();
    db.put(b"b", b"2").unwrap();
    db.delete(b"b").unwrap();
    db.delete_range(b"x", b"z").unwrap();
    db.flush().unwrap();
    assert_eq!(db.level_tables(0).unwrap().len(), 1);
    assert_eq!(db.slot_stats().used, 1);
    assert_eq!(read(&mut db, b"a"), Some(b"1".to_vec()));
    assert_eq!(read(&mut db, b"b"), None);
    assert_eq!(db.check_invariants(), Ok(()));
    let mut db = reopen(db);
    assert_eq!(db.level_tables(0).unwrap().len(), 1);
    assert_eq!(read(&mut db, b"a"), Some(b"1".to_vec()));
    assert_eq!(db.put(b"c", b"3"), Ok(5));
}

#[test]
fn repeated_reads_hit_the_cache() {
    let mut db = Db::<Ram, 512, 16, 32, 8, 512, 3, 2, 16, 8>::new(Ram::new(), config());
    db.open().unwrap();
    db.put(b"a", b"1").unwrap();
    db.flush().unwrap();
    let mut buf = [0u8; 32];
    assert_eq!(db.get(b"a", &mut buf), Ok(Some(1)));
    let cold = db.cache_stats();
    assert_eq!(db.get(b"a", &mut buf), Ok(Some(1)));
    let warm = db.cache_stats();
    assert!(warm.hits > cold.hits);
    assert_eq!(warm.misses, cold.misses);
}

#[test]
fn range_delete_hides_until_rewritten() {
    let mut db = fresh();
    db.put(b"a", b"1").unwrap();
    db.put(b"m", b"2").unwrap();
    db.delete_range(b"a", b"m").unwrap();
    assert_eq!(read(&mut db, b"a"), None);
    assert_eq!(read(&mut db, b"m"), Some(b"2".to_vec()));
    db.put(b"a", b"3").unwrap();
    assert_eq!(read(&mut db, b"a"), Some(b"3".to_vec()));
}

#[test]
fn batch_commits_as_one() {
    let mut db = fresh();
    let mut batch = WriteBatch::<16, 32, 4>::new();
    batch.put(b"a", b"1").unwrap();
    batch.put(b"b", b"2").unwrap();
    batch.delete(b"a").unwrap();
    batch.put(b"c", b"3").unwrap();
    assert_eq!(batch.put(b"d", b"4"), Err(Error::BatchFull));
    db.write(&batch).unwrap();
    assert_eq!(read(&mut db, b"a"), None);
    assert_eq!(read(&mut db, b"b"), Some(b"2".to_vec()));
    let mut db = reopen(db);
    assert_eq!(read(&mut db, b"a"), None);
    assert_eq!(read(&mut db, b"c"), Some(b"3".to_vec()));
}

#[test]
fn full_log_asks_for_a_flush() {
    let mut db = fresh();
    let mut full = false;
    for i in 0..40u8 {
        match db.put(&[b'k', i % 4], b"v") {
            Ok(_) => {}
            Err(e) => {
                assert!(matches!(e, Error::WalFull | Error::TableFull));
                full = true;
                break;
            }
        }
    }
    assert!(full);
    db.flush().unwrap();
    db.put(b"again", b"v").unwrap();
    assert_eq!(read(&mut db, b"again"), Some(b"v".to_vec()));
}

#[test]
fn device_failure_is_passed_on() {
    let mut db = fresh();
    db.put(b"a", b"1").unwrap();
    let mut ram = db.into_device();
    ram.fail_writes = true;
    let mut db = TestDb::new(ram, config());
    db.open().unwrap();
    assert_eq!(db.put(b"b", b"2"), Err(Error::Device(Broken)));
    assert_eq!(db.flush(), Err(Error::Device(Broken)));
    assert_eq!(read(&mut db, b"a"), Some(b"1".to_vec()));
}

#[test]
fn compaction_keeps_reads() {
    let mut db = fresh();
    let mut expect: Vec<(Vec<u8>, Option<Vec<u8>>)> = Vec::new();
    for i in 0..60u32 {
        let key = vec![b'k', b'a' + (i * 7 % 13) as u8];
        let val = format!("v{i}").into_bytes();
        if i % 9 == 5 {
            db.delete(&key).unwrap();
            expect.retain(|(k, _)| *k != key);
            expect.push((key, None));
        } else {
            db.put(&key, &val).unwrap();
            expect.retain(|(k, _)| *k != key);
            expect.push((key, Some(val)));
        }
        if i % 4 == 3 {
            loop {
                match db.flush() {
                    Ok(()) => break,
                    Err(Error::NeedsCompaction) => settle(&mut db),
                    Err(e) => panic!("{e:?}"),
                }
            }
        }
        assert_eq!(db.check_invariants(), Ok(()));
    }
    settle(&mut db);
    for (k, v) in &expect {
        assert_eq!(read(&mut db, k), *v, "{k:?}");
    }
    let mut db = reopen(db);
    for (k, v) in &expect {
        assert_eq!(read(&mut db, k), *v, "{k:?}");
    }
    assert!(!db.level_tables(1).unwrap().is_empty());
}

#[test]
fn scan_yields_the_live_view_in_order() {
    let mut db = fresh();
    db.put(b"b", b"old").unwrap();
    db.put(b"d", b"4").unwrap();
    db.put(b"e", b"5").unwrap();
    db.flush().unwrap();
    db.put(b"a", b"1").unwrap();
    db.put(b"b", b"2").unwrap();
    db.delete(b"d").unwrap();
    db.put(b"f", b"6").unwrap();
    db.delete_range(b"e", b"f").unwrap();
    let mut scan = TestScan::new();
    let (mut k, mut v) = ([0u8; 16], [0u8; 32]);
    scan.seek(&db, b"", None, u64::MAX).unwrap();
    let mut got = Vec::new();
    while let Some((kn, vn)) = scan.next(&mut db, &mut k, &mut v).unwrap() {
        got.push((k[..kn].to_vec(), v[..vn].to_vec()));
    }
    assert_eq!(
        got,
        vec![
            (b"a".to_vec(), b"1".to_vec()),
            (b"b".to_vec(), b"2".to_vec()),
            (b"f".to_vec(), b"6".to_vec()),
        ]
    );
    assert_eq!(scan.next(&mut db, &mut k, &mut v), Ok(None));
    // At the watermark of the flush the first three keys show.
    scan.seek(&db, b"c", Some(b"e"), 3).unwrap();
    assert_eq!(scan.next(&mut db, &mut k, &mut v), Ok(Some((1, 1))));
    assert_eq!((k[0], v[0]), (b'd', b'4'));
    assert_eq!(scan.next(&mut db, &mut k, &mut v), Ok(None));
}

#[test]
fn scan_goes_through_the_blocks_of_several_tables() {
    let mut db = fresh();
    let mut want = std::collections::BTreeMap::new();
    // Long values, so that a table takes several data blocks; a stride that
    // spreads each flush over the whole key range.
    for i in 0..90u32 {
        let key = format!("key-{:03}", (i * 37) % 60).into_bytes();
        let val = vec![b'a' + (i % 26) as u8; 32];
        if i % 11 == 10 {
            db.delete(&key).unwrap();
            want.remove(&key);
        } else {
            db.put(&key, &val).unwrap();
            want.insert(key, val);
        }
        if i % 4 == 3 {
            while let Err(e) = db.flush() {
                assert_eq!(e, Error::NeedsCompaction);
                settle(&mut db);
            }
        }
    }
    let blocks: u32 = (0..3)
        .flat_map(|l| db.level_tables(l).unwrap().to_vec())
        .map(|t| t.block_count)
        .max()
        .unwrap();
    assert!(blocks > 5);
    let mut scan = TestScan::new();
    let (mut k, mut v) = ([0u8; 16], [0u8; 32]);
    for (from, to) in [(&b""[..], None), (b"key-02", Some(&b"key-051"[..]))] {
        scan.seek(&db, from, to, u64::MAX).unwrap();
        let mut got = Vec::new();
        while let Some((kn, vn)) = scan.next(&mut db, &mut k, &mut v).unwrap() {
            got.push((k[..kn].to_vec(), v[..vn].to_vec()));
        }
        let live: Vec<_> = want
            .iter()
            .filter(|(key, _)| key.as_slice() >= from && to.is_none_or(|e| key.as_slice() < e))
            .map(|(key, val)| (key.clone(), val.clone()))
            .collect();
        assert_eq!(got, live);
    }
}

#[test]
fn scan_retries_with_a_larger_buffer() {
    let mut db = fresh();
    db.put(b"key", b"value").unwrap();
    let mut scan = TestScan::new();
    scan.seek(&db, b"", None, u64::MAX).unwrap();
    let (mut k, mut v) = ([0u8; 2], [0u8; 2]);
    assert_eq!(
        scan.next(&mut db, &mut k, &mut v),
        Err(Error::BufferTooSmall { need: 3 })
    );
    let mut k = [0u8; 3];
    assert_eq!(
        scan.next(&mut db, &mut k, &mut v),
        Err(Error::BufferTooSmall { need: 5 })
    );
    // The key is in the buffer by then; the value is not.
    assert_eq!((&k, v), (b"key", [0; 2]));
    let mut v = [0u8; 5];
    assert_eq!(scan.next(&mut db, &mut k, &mut v), Ok(Some((3, 5))));
    assert_eq!((&k, &v), (b"key", b"value"));
    assert_eq!(
        scan.seek(&db, b"", Some(b""), 0),
        Err(Error::EmptyKey)
    );
    assert_eq!(
        scan.seek(&db, &[1; 17], None, 0),
        Err(Error::KeyTooLarge { len: 17, max: 16 })
    );
}

#[test]
fn scan_writes_the_deleted_keys_it_passes() {
    let mut db = fresh();
    db.put(b"long", b"1").unwrap();
    db.delete(b"long").unwrap();
    db.put(b"m", b"2").unwrap();
    db.put(b"zz", b"3").unwrap();
    db.delete_range(b"z", b"zzz").unwrap();
    let mut scan = TestScan::new();
    scan.seek(&db, b"", None, u64::MAX).unwrap();
    // A deleted key has to fit the key buffer too.
    let (mut k, mut v) = ([b'.'; 3], [b'.'; 3]);
    assert_eq!(
        scan.next(&mut db, &mut k, &mut v),
        Err(Error::BufferTooSmall { need: 4 })
    );
    assert_eq!(k, [b'.'; 3]);
    let mut k = [b'.'; 6];
    assert_eq!(scan.next(&mut db, &mut k, &mut v), Ok(Some((1, 1))));
    assert_eq!((&k, &v), (b"mong..", b"2.."));
    // The range tombstone hides what is left.
    assert_eq!(scan.next(&mut db, &mut k, &mut v), Ok(None));
    assert_eq!((&k, &v), (b"zzng..", b"2.."));
    assert_eq!(scan.next(&mut db, &mut k, &mut v), Ok(None));
    assert_eq!((&k, &v), (b"zzng..", b"2.."));
}

#[test]
fn archived_table_comes_back_by_ingest() {
    let mut db = fresh();
    db.put(b"a", b"1").unwrap();
    db.put(b"b", b"2").unwrap();
    db.flush().unwrap();
    let id = db.level_tables(0).unwrap()[0].id;
    assert!(db.archive_plan(0, id + 1).is_none());
    let plan = db.archive_plan(0, id).unwrap();
    let sealed = plan.sealed();
    let mut remote = Ram::new();
    for i in 0..u64::from(plan.table.block_count) {
        let mut buf = [0u8; 512];
        db.device().read_block(plan.table.first_block + i, &mut buf).unwrap();
        remote.write_block(7 + i, &buf).unwrap();
    }
    assert_eq!(db.archive_commit(0, id), Ok(true));
    assert_eq!(db.archive_commit(0, id), Ok(false));
    assert_eq!(read(&mut db, b"a"), None);
    assert_eq!(db.slot_stats().used, 0);
    assert_eq!(db.ingest_table(&sealed, &remote, 7), Ok(true));
    assert_eq!(db.ingest_table(&sealed, &remote, 7), Ok(false));
    assert_eq!(read(&mut db, b"a"), Some(b"1".to_vec()));
    assert_eq!(read(&mut db, b"b"), Some(b"2".to_vec()));
    assert_eq!(db.check_invariants(), Ok(()));
    let mut db = reopen(db);
    assert_eq!(read(&mut db, b"a"), Some(b"1".to_vec()));
}

#[test]
fn archiving_a_live_tombstone_is_refused() {
    let mut db = fresh();
    db.put(b"a", b"1").unwrap();
    db.flush().unwrap();
    db.delete(b"a").unwrap();
    db.flush().unwrap();
    let newest = db.level_tables(0).unwrap()[1].id;
    assert_eq!(
        db.archive_commit(0, newest),
        Err(Error::WouldResurrect { table: newest })
    );
    assert_eq!(read(&mut db, b"a"), None);
    assert_eq!(db.archive_commit(9, newest), Ok(false));
}

#[test]
fn torn_log_tail_is_dropped() {
    let mut db = fresh();
    db.put(b"a", b"1").unwrap();
    db.put(b"b", b"2").unwrap();
    let mut ram = db.into_device();
    // The second commit's block never reached the device whole.
    ram.blocks[1] = [0u8; 512];
    let mut db = TestDb::new(ram, config());
    let report = db.open().unwrap();
    assert_eq!(report.recovered_records, 1);
    assert_eq!(read(&mut db, b"a"), Some(b"1".to_vec()));
    assert_eq!(read(&mut db, b"b"), None);
}

#[test]
fn records_in_front_of_a_tear_are_replayed() {
    let mut db = fresh();
    db.put(b"a", b"1").unwrap();
    let mut batch = WriteBatch::<16, 32, 4>::new();
    batch.put(b"b", b"2").unwrap();
    batch.put(b"c", b"3").unwrap();
    db.write(&batch).unwrap();
    let mut ram = db.into_device();
    // Each record takes 25 bytes; the second one of the batch is damaged.
    ram.blocks[1][45] ^= 1;
    let mut db = TestDb::new(ram, config());
    let report = db.open().unwrap();
    assert_eq!((report.recovered_records, report.max_seq), (2, 2));
    assert_eq!(read(&mut db, b"b"), Some(b"2".to_vec()));
    assert_eq!(read(&mut db, b"c"), None);
    // The torn block counts as used: the next commit goes behind it.
    let torn = db.device().blocks[1];
    db.put(b"d", b"4").unwrap();
    assert_eq!(db.device().blocks[1], torn);
    assert_ne!(db.device().blocks[2], [0u8; 512]);
}

#[test]
fn a_new_snapshot_shows_the_live_state() {
    let mut db = fresh();
    db.put(b"a", b"1").unwrap();
    db.put(b"b", b"2").unwrap();
    db.flush().unwrap();
    db.put(b"b", b"3").unwrap();
    db.delete_range(b"a", b"aa").unwrap();
    let snap = db.snapshot().unwrap();
    for key in [b"a", b"b", b"c"] {
        assert_eq!(read_at(&mut db, key, snap, 0), read(&mut db, key));
    }
    assert_eq!(read_at(&mut db, b"b", snap, 0), Some(b"3".to_vec()));
}

#[test]
fn manifest_ring_survives_reopen() {
    let ring = config().with_manifest_ring(4);
    let mut db = TestDb::new(Ram::new(), ring);
    db.open().unwrap();
    for i in 0..6u8 {
        db.put(&[b'k', i], &[i]).unwrap();
        loop {
            match db.flush() {
                Ok(()) => break,
                Err(Error::NeedsCompaction) => settle(&mut db),
                Err(e) => panic!("{e:?}"),
            }
        }
    }
    let mut db = TestDb::new(db.into_device(), ring);
    db.open().unwrap();
    for i in 0..6u8 {
        assert_eq!(read(&mut db, &[b'k', i]), Some(vec![i]));
    }
}

#[test]
fn writes_between_compaction_steps_are_kept() {
    let mut db = fresh();
    for i in 0..2u8 {
        for j in 0..8u8 {
            db.put(&[b'k', i * 7 + j], &[i * 7 + j; 32]).unwrap();
        }
        db.flush().unwrap();
    }
    assert!(db.compaction_pending());
    let mut scratch = Box::new(TestCompaction::new());
    let mut steps = 0u8;
    while let Progress::More = db.compact_step(&mut scratch).unwrap() {
        if steps < 3 {
            db.put(&[b'w', steps], b"between").unwrap();
        }
        steps += 1;
        assert_eq!(db.check_invariants(), Ok(()));
    }
    assert!(steps > 0);
    assert!(!db.compaction_pending());
    assert_eq!(db.level_tables(0).unwrap().len(), 0);
    assert_eq!(db.level_tables(1).unwrap().len(), 1);
    for j in 0..15u8 {
        assert_eq!(read(&mut db, &[b'k', j]), Some(vec![j; 32]));
    }
    assert_eq!(read(&mut db, &[b'w', 0]), Some(b"between".to_vec()));
}

#[test]
fn abandoned_compaction_leaves_nothing_behind() {
    let mut db = fresh();
    for i in 0..2u8 {
        for j in 0..8u8 {
            db.put(&[b'k', i * 7 + j], &[i * 7 + j; 32]).unwrap();
        }
        db.flush().unwrap();
    }
    let mut dropped = Box::new(TestCompaction::new());
    assert_eq!(db.compact_step(&mut dropped), Ok(Progress::More));
    assert_eq!(db.slot_stats().reserved, 1);
    settle(&mut db);
    assert_eq!(db.slot_stats().used, 1);
    // The stale scratch resets itself instead of going on.
    assert_eq!(db.compact_step(&mut dropped), Ok(Progress::Done));
    assert_eq!(db.slot_stats().used, 1);
    assert_eq!(db.slot_stats().reserved, 0);
    for j in 0..15u8 {
        assert_eq!(read(&mut db, &[b'k', j]), Some(vec![j; 32]));
    }
}

#[test]
fn torn_flush_commit_loses_nothing() {
    let mut db = fresh();
    db.put(b"a", b"1").unwrap();
    db.flush().unwrap();
    db.put(b"b", b"2").unwrap();
    db.flush().unwrap();
    let mut ram = db.into_device();
    // The second commit's copy is torn: the log still holds its records.
    ram.blocks[20][40] ^= 0xFF;
    let mut db = TestDb::new(ram, config());
    let report = db.open().unwrap();
    assert_eq!(report.l0_tables, 1);
    assert_eq!(report.recovered_records, 1);
    assert_eq!(read(&mut db, b"a"), Some(b"1".to_vec()));
    assert_eq!(read(&mut db, b"b"), Some(b"2".to_vec()));
}

#[test]
fn slots_rotate_across_reopens() {
    let mut db = fresh();
    for key in [b"a", b"b"] {
        db.put(key, b"1").unwrap();
        db.flush().unwrap();
    }
    // Slots of 166 blocks from 64 on.
    let firsts: Vec<u64> = db.level_tables(0).unwrap().iter().map(|t| t.first_block).collect();
    assert_eq!(firsts, vec![64, 64 + 166]);
    settle(&mut db);
    assert_eq!(db.level_tables(1).unwrap()[0].first_block, 64 + 2 * 166);
    // The first slots are free again, but the search goes on past the
    // newest table.
    let mut db = reopen(db);
    db.put(b"c", b"1").unwrap();
    db.flush().unwrap();
    assert_eq!(db.level_tables(0).unwrap()[0].first_block, 64 + 3 * 166);
    // With no table it begins at the first slot.
    let mut db = reopen(fresh());
    db.put(b"a", b"1").unwrap();
    db.flush().unwrap();
    assert_eq!(db.level_tables(0).unwrap()[0].first_block, 64);
}

/// The block holds a run of 16 equal bytes that are not zero.
fn has_run(block: &[u8; 512]) -> bool {
    block.windows(16).any(|w| w[0] != 0 && w.iter().all(|b| *b == w[0]))
}

#[test]
fn tables_are_compressed() {
    let mut db = fresh();
    for round in 0..2u8 {
        for key in 0..6u8 {
            db.put(&[b'k', round, key], &[b'v'; 32]).unwrap();
        }
        db.flush().unwrap();
    }
    let flushed: Vec<u64> = db.level_tables(0).unwrap().iter().map(|t| t.first_block).collect();
    settle(&mut db);
    let merged = db.level_tables(1).unwrap()[0].first_block;
    assert_eq!(read(&mut db, &[b'k', 1, 5]), Some(vec![b'v'; 32]));
    let dev = db.into_device();
    assert!(has_run(&[b'v'; 512]));
    for first in flushed.iter().chain([&merged]) {
        assert!(!has_run(&dev.blocks[*first as usize]));
    }
}

//! Tables, logs and manifests on an in-memory device.

use horton::cache::NoCache;
use horton::compact::cursor::EntryStream;
use horton::compress::CompressScratch;
use horton::manifest::ManifestLayout;
use horton::sstable::bloom::bloom_add;
use horton::sstable::reader::read_block_cached;
use horton::sstable::relocate::relocate_table;
use horton::{
    bloom_k, bloom_maybe_contains, plan_table, write_table, BlockCache, BlockDevice, Error, KeyBound,
    Lookup, Manifest, MemTable, Op, SstEntry, TableReader, TableRef, WalWriter,
};

#[derive(Debug, Clone, Copy, PartialEq, Eq)]
struct Broken;

#[derive(Clone)]
struct Ram {
    blocks: Vec<[u8; 512]>,
}

impl Ram {
    fn new() -> Self {
        Ram {
            blocks: vec![[0u8; 512]; 128],
        }
    }
}

impl BlockDevice for Ram {
    type Error = Broken;
    const BLOCK: usize = 512;

    fn read_block(&self, id: u64, buf: &mut [u8]) -> Result<(), Broken> {
        let b = self.blocks.get(id as usize).ok_or(Broken)?;
        buf.copy_from_slice(b);
        Ok(())
    }

    fn write_block(&mut self, id: u64, buf: &[u8]) -> Result<(), Broken> {
        let b = self.blocks.get_mut(id as usize).ok_or(Broken)?;
        b.copy_from_slice(buf);
        Ok(())
    }

    fn flush(&mut self) -> Result<(), Broken> {
        Ok(())
    }
}

type Man = Manifest<3, 4, 16>;
type Table = MemTable<16, 512, 16, 32>;

/// Keys `k00`, `k01`, ... with two versions each; every fifth key is
/// deleted by its newer version.
fn sample() -> Vec<(Vec<u8>, Vec<u8>, u64, bool)> {
    let mut out = Vec::new();
    for i in 0..40u64 {
        let key = format!("k{i:02}").into_bytes();
        let dead = i % 5 == 0;
        let val = if dead {
            Vec::new()
        } else {
            format!("new-{i}").into_bytes()
        };
        out.push((key.clone(), val, 100 + i, dead));
        out.push((key, format!("old-{i}").into_bytes(), 1 + i, false));
    }
    out
}

fn entries(rows: &[(Vec<u8>, Vec<u8>, u64, bool)]) -> Vec<SstEntry<'_>> {
    rows.iter()
        .map(|(key, val, seq, tombstone)| SstEntry {
            key,
            val,
            seq: *seq,
            tombstone: *tombstone,
            expire_at: 0,
        })
        .collect()
}

fn check_lookups(dev: &Ram, base: u64, blocks: u64) {
    let mut scratch = [0u8; 512];
    let mut decomp = [0u8; 512];
    let mut buf = [0u8; 32];
    let mut none = NoCache::<512>;
    let footer = base + blocks - 1;
    let r = TableReader::<Ram, 512, 64>::open(dev, &mut scratch, footer, footer - 2).unwrap();
    assert_eq!(r.entry_count(), 80);
    assert_eq!(r.min_seq(), 1);
    assert_eq!(r.rdel_blocks(), 0);
    for i in 0..40u64 {
        let key = format!("k{i:02}");
        let got = r
            .lookup(&mut none, &mut scratch, &mut decomp, key.as_bytes(), &mut buf)
            .unwrap();
        if i % 5 == 0 {
            assert_eq!(got, Lookup::Tombstone { seq: 100 + i });
        } else {
            let want = format!("new-{i}");
            let len = want.len();
            assert_eq!(
                got,
                Lookup::Value {
                    len,
                    seq: 100 + i,
                    expire_at: 0
                }
            );
            assert_eq!(&buf[..len], want.as_bytes());
        }
        let got = r
            .lookup_at(
                &mut none,
                &mut scratch,
                &mut decomp,
                key.as_bytes(),
                &mut buf,
                99,
            )
            .unwrap();
        let want = format!("old-{i}");
        assert_eq!(
            got,
            Lookup::Value {
                len: want.len(),
                seq: 1 + i,
                expire_at: 0
            }
        );
        assert_eq!(&buf[..want.len()], want.as_bytes());
    }
    let got = r.lookup(&mut none, &mut scratch, &mut decomp, b"nope", &mut buf);
    assert_eq!(got, Ok(Lookup::Missing));
}

#[test]
fn tables_read_back_what_was_written() {
    let rows = sample();
    let list = entries(&rows);
    let plan = plan_table::<Broken, 512, 16>(&list).unwrap();
    assert_eq!(plan.entry_count, 80);
    assert_eq!(plan.min_seq, 1);
    assert_eq!(plan.max_seq, 139);
    assert_eq!(plan.first_key.as_slice(), b"k00");
    assert_eq!(plan.last_key.as_slice(), b"k39");
    let k = bloom_k(64 * 8, 80);
    let mut raw = Ram::new();
    let blocks = write_table::<Ram, 512, 64, 16>(&mut raw, 10, k, &list, None, 0).unwrap();
    assert_eq!(blocks, plan.data_blocks + 3);
    check_lookups(&raw, 10, blocks);
    // Compressed data blocks take the same places and read the same.
    let mut cs = Box::new(CompressScratch::<512>::new());
    let mut packed = Ram::new();
    let same =
        write_table::<Ram, 512, 64, 16>(&mut packed, 10, k, &list, Some(&mut cs), 0).unwrap();
    assert_eq!(same, blocks);
    assert!(packed.blocks[10] != raw.blocks[10]);
    check_lookups(&packed, 10, blocks);
}

#[test]
fn tables_stream_in_order() {
    let rows = sample();
    let list = entries(&rows);
    let mut dev = Ram::new();
    let blocks = write_table::<Ram, 512, 64, 16>(&mut dev, 10, 3, &list, None, 0).unwrap();
    let mut t = TableRef::<16>::empty();
    t.first_block = 10;
    t.block_count = blocks as u32;
    let mut es = EntryStream::<Ram, 512, 16, 32>::open(&dev, &t).unwrap();
    for (i, (key, _, seq, dead)) in rows.iter().enumerate() {
        assert_eq!(es.head(), Some((key.as_slice(), *seq, *dead)));
        assert_eq!(es.advance(), Ok(i + 1 < rows.len()));
    }
    assert!(es.head().is_none());
    // A flipped bit in a data block is reported, never read over.
    dev.blocks[10][3] ^= 1;
    let bad = EntryStream::<Ram, 512, 16, 32>::open(&dev, &t);
    assert!(matches!(bad, Err(Error::CorruptBlock { id: 10 })));
}

#[test]
fn tables_move_to_other_blocks() {
    let rows = sample();
    let list = entries(&rows);
    let mut dev = Ram::new();
    let blocks = write_table::<Ram, 512, 64, 16>(&mut dev, 10, 3, &list, None, 0).unwrap();
    for i in 0..blocks as usize {
        dev.blocks[60 + i] = dev.blocks[10 + i];
        dev.blocks[10 + i] = [0; 512];
    }
    let mut scratch = [0u8; 512];
    relocate_table(&mut dev, 60, blocks as u32, 0, &mut scratch).unwrap();
    check_lookups(&dev, 60, blocks);
    dev.blocks[60 + blocks as usize - 1][0] ^= 1;
    assert_eq!(
        relocate_table(&mut dev, 60, blocks as u32, 0, &mut scratch),
        Err(Error::CorruptBlock { id: 59 + blocks })
    );
}

#[test]
fn bloom_never_misses_an_added_key() {
    let mut bits = [0u8; 16];
    let k = bloom_k(128, 12);
    assert_eq!(bloom_k(128, 0), 1);
    for i in 0..12u8 {
        bloom_add(&mut bits, &[i, 7], k);
    }
    for i in 0..12u8 {
        assert!(bloom_maybe_contains(&bits, &[i, 7], k));
    }
    assert!(!bloom_maybe_contains(&[0u8; 16], b"x", k));
}

#[test]
fn log_replays_what_was_committed() {
    let mut w = WalWriter::<Ram, 512>::new(Ram::new(), 2, 8);
    w.append(1, Op::Put, b"a", b"1").unwrap();
    w.append(2, Op::Delete, b"b", b"").unwrap();
    w.append_ttl(3, b"c", b"3", 77).unwrap();
    w.commit().unwrap();
    w.append(4, Op::Put, b"d", b"4").unwrap();
    assert!(w.staged_bytes() > 0);
    let dev = w.into_device();
    let mut w = WalWriter::<Ram, 512>::new(dev, 2, 8);
    let mut t = Table::new();
    let rep = w.recover(&mut t).unwrap();
    assert_eq!(rep.records, 3);
    assert_eq!(rep.max_seq, 3);
    assert_eq!(rep.blocks_used, 1);
    assert_eq!(w.next_block(), 3);
    assert_eq!(t.get(b"a").unwrap().val, b"1");
    assert!(t.get(b"b").unwrap().tombstone);
    assert_eq!(t.get(b"c").unwrap().expire_at, 77);
    assert!(t.get(b"d").is_none());
    // Records at or below the floor are passed over.
    let mut t = Table::new();
    let rep = w.recover_from(&mut t, 2, 2).unwrap();
    assert_eq!(rep.records, 1);
    assert_eq!(t.len(), 1);
}

#[test]
fn log_region_is_bounded() {
    let mut w = WalWriter::<Ram, 512>::new(Ram::new(), 2, 3);
    w.append(1, Op::Put, b"a", b"1").unwrap();
    w.commit().unwrap();
    w.append(2, Op::Put, b"b", b"2").unwrap();
    assert_eq!(w.commit(), Err(Error::NoSpace));
    assert_eq!(
        w.append(3, Op::Put, b"c", &[0; 600]),
        Err(Error::NoSpace)
    );
}

fn table_ref(id: u32, first: &[u8], last: &[u8]) -> TableRef<16> {
    let mut t = TableRef::<16>::empty();
    t.id = id;
    t.first_block = 10 * u64::from(id);
    t.block_count = 4;
    t.first_key = KeyBound::from_slice(first).unwrap();
    t.last_key = KeyBound::from_slice(last).unwrap();
    t.max_seq = u64::from(id) + 5;
    t.min_seq = u64::from(id);
    t.entry_count = 3;
    t
}

#[test]
fn manifests_encode_and_decode() {
    let mut m = Man::new();
    m.add_l0_table::<Broken>(table_ref(1, b"a", b"m")).unwrap();
    m.add_table_to_level::<Broken>(1, table_ref(3, b"p", b"q")).unwrap();
    m.add_table_to_level::<Broken>(1, table_ref(2, b"b", b"c")).unwrap();
    m.set_wal_head(9);
    m.note_flushed(6);
    m.raise_seq_high(40);
    m.advance_next_table_id(4);
    let order: Vec<u32> = m.level(1).unwrap().iter().map(|t| t.id).collect();
    assert_eq!(order, [2, 3]);
    let mut block = [0u8; 512];
    m.encode::<Broken, 512>(&mut block).unwrap();
    let d = Man::decode::<Broken, 512>(&block).unwrap();
    assert_eq!(d.wal_head(), 9);
    assert_eq!(d.flushed_seq(), 6);
    assert_eq!(d.seq_high(), 40);
    assert_eq!(d.next_table_id(), 4);
    for l in 0..3 {
        assert_eq!(d.level(l), m.level(l));
    }
    assert_eq!(d.find_table(3), Some(&table_ref(3, b"p", b"q")));
    block[20] ^= 4;
    assert!(matches!(
        Man::decode::<Broken, 512>(&block),
        Err(Error::CorruptManifest)
    ));
    assert_eq!(m.remove_table_from_level::<Broken>(1, 2), Ok(true));
    assert_eq!(m.remove_table_from_level::<Broken>(1, 2), Ok(false));
    assert_eq!(m.level(1).unwrap().len(), 1);
}

#[test]
fn levels_share_one_pool_over_several_blocks() {
    type Wide = Manifest<3, 8, 16>;
    let mut dev = Ram::new();
    let mut scratch = [0u8; 512];
    let mut m = Wide::new();
    for i in 0..3u32 {
        m.add_l0_table::<Broken>(table_ref(i, b"a", b"z")).unwrap();
    }
    // A deeper level takes more than its share, in first-key order.
    for i in (0..15u8).rev() {
        m.add_table_to_level::<Broken>(2, table_ref(30 + u32::from(i), &[b'a' + i], b"z"))
            .unwrap();
    }
    for i in 0..6u8 {
        m.add_table_to_level::<Broken>(1, table_ref(10 + u32::from(i), &[b'a' + i], b"z"))
            .unwrap();
    }
    assert_eq!(m.free_refs(), 0);
    assert_eq!(
        m.add_table_to_level::<Broken>(1, table_ref(9, b"k", b"l")),
        Err(Error::NoSpace)
    );
    let ids: Vec<u32> = m.tables().iter().map(|t| t.id).collect();
    let want: Vec<u32> = (0..3).chain(10..16).chain(30..45).collect();
    assert_eq!(ids, want);
    assert_eq!(m.level(2).unwrap().len(), 15);
    assert_eq!(m.max_seq(), 49);
    // One out of the middle, one narrowed.
    assert_eq!(m.remove_table_from_level::<Broken>(1, 12), Ok(true));
    let from = KeyBound::from_slice(b"mm").unwrap();
    assert_eq!(m.narrow_table::<Broken>(2, 30, from), Ok(true));
    assert_eq!(m.level(2).unwrap()[0].first_key, from);
    assert_eq!(m.level(0).unwrap()[2], table_ref(2, b"a", b"z"));
    assert_eq!(m.free_refs(), 1);
    // The copy takes several blocks, and reads back through them.
    let blocks = m.encoded_blocks::<512>();
    assert_eq!((m.body_len(), blocks), (32 + 12 + 23 * 46 + 1, 3));
    m.commit(&mut dev, &mut scratch, 20, 40).unwrap();
    let (got, blank) = Wide::recover(&mut dev, &mut scratch, 20, 40).unwrap();
    assert!(!blank);
    for l in 0..3 {
        assert_eq!(got.level(l), m.level(l));
    }
    assert_eq!(got.tables(), m.tables());
    assert_eq!(got.find_table(12), None);
    // A copy of more than one block is no one-block copy.
    assert!(matches!(m.encode::<Broken, 512>(&mut scratch), Err(Error::NoSpace)));
    // Any block damaged, the copy is gone.
    for b in 0..blocks {
        let mut torn = Ram::new();
        torn.blocks.copy_from_slice(&dev.blocks);
        torn.blocks[40 + b][30] ^= 1;
        let got = Wide::recover(&mut torn, &mut scratch, 20, 40);
        assert!(matches!(got, Ok((_, true)) | Err(Error::CorruptManifest)));
    }
}

#[test]
fn torn_manifest_commit_keeps_the_previous_copy() {
    let mut dev = Ram::new();
    let mut scratch = [0u8; 512];
    let (m, fresh) = Man::recover(&mut dev, &mut scratch, 20, 40).unwrap();
    assert!(fresh);
    let mut m = m;
    m.set_wal_head(1);
    m.commit(&mut dev, &mut scratch, 20, 40).unwrap();
    m.set_wal_head(2);
    m.commit(&mut dev, &mut scratch, 20, 40).unwrap();
    let (got, fresh) = Man::recover(&mut dev, &mut scratch, 20, 40).unwrap();
    assert!(!fresh);
    assert_eq!((got.seq(), got.wal_head()), (2, 2));
    // The second commit went to the first copy; tear it.
    dev.blocks[20][30] ^= 0xFF;
    let (got, fresh) = Man::recover(&mut dev, &mut scratch, 20, 40).unwrap();
    assert!(!fresh);
    assert_eq!((got.seq(), got.wal_head()), (1, 1));
    dev.blocks[40][30] ^= 0xFF;
    assert!(matches!(
        Man::recover(&mut dev, &mut scratch, 20, 40),
        Err(Error::CorruptManifest)
    ));
}

#[test]
fn manifest_rings_rotate() {
    let mut dev = Ram::new();
    let mut scratch = [0u8; 512];
    let ring = ManifestLayout::ring(20, 3);
    assert_eq!(ring.copies(), 3);
    let stride = Man::max_blocks::<512>();
    assert_eq!(ring.copy_start(2, stride), 20 + 2 * stride);
    let mut m = Man::new();
    for i in 1..=4u64 {
        m.set_wal_head(i);
        m.commit_to(&mut dev, &mut scratch, ring).unwrap();
    }
    let (got, _) = Man::recover_from(&mut dev, &mut scratch, ring).unwrap();
    assert_eq!((got.seq(), got.wal_head()), (4, 4));
    // Commits two, three and four are the ones still there.
    dev.blocks[(20 + stride) as usize] = [0; 512];
    let (got, _) = Man::recover_from(&mut dev, &mut scratch, ring).unwrap();
    assert_eq!((got.seq(), got.wal_head()), (3, 3));
}

#[test]
fn tables_stay_in_their_blocks() {
    let rows = sample();
    let list = entries(&rows);
    let mut dev = Ram::new();
    for (i, b) in dev.blocks.iter_mut().enumerate() {
        b.fill(i as u8);
    }
    let before = dev.clone();
    let blocks = write_table::<Ram, 512, 64, 16>(&mut dev, 10, 3, &list, None, 2).unwrap() as usize;
    for i in 0..128 {
        // The two blocks of the range tombstones are left to the caller.
        let table = 10..10 + blocks + 2;
        let left = 10 + blocks - 3..10 + blocks - 1;
        assert_eq!(
            dev.blocks[i] == before.blocks[i],
            !table.contains(&i) || left.contains(&i),
            "block {i}"
        );
    }
    // A refused entry leaves the blocks behind the table alone, too.
    let long = [b'z'; 17];
    let mut bad = list.clone();
    bad.push(SstEntry {
        key: &long,
        val: b"",
        seq: 500,
        tombstone: false,
        expire_at: 0,
    });
    let mut dev = before.clone();
    assert_eq!(
        write_table::<Ram, 512, 64, 16>(&mut dev, 10, 3, &bad, None, 0),
        Err(Error::KeyTooLarge { len: 17, max: 16 })
    );
    assert_eq!(dev.blocks[..10], before.blocks[..10]);
    assert_eq!(dev.blocks[10 + blocks..], before.blocks[10 + blocks..]);
}

#[test]
fn blocks_are_read_through_the_cache() {
    let mut dev = Ram::new();
    dev.blocks[7] = [7; 512];
    let mut cache = Box::new(BlockCache::<512, 2>::default());
    assert_eq!(cache.stats().len, 0);
    let mut out = [0u8; 512];
    assert_eq!(read_block_cached(&dev, &mut *cache, 3, 7, &mut out, true), Ok(()));
    assert_eq!(out, [7; 512]);
    assert_eq!((cache.stats().hits, cache.stats().misses), (0, 1));
    // The image is held: the device is not asked again.
    dev.blocks[7] = [9; 512];
    out = [0; 512];
    assert_eq!(read_block_cached(&dev, &mut *cache, 3, 7, &mut out, true), Ok(()));
    assert_eq!(out, [7; 512]);
    assert_eq!((cache.stats().hits, cache.stats().misses), (1, 1));
    // Another table's image is another one, and a failed read holds none.
    assert_eq!(read_block_cached(&dev, &mut *cache, 4, 7, &mut out, true), Ok(()));
    assert_eq!(out, [9; 512]);
    assert_eq!(
        read_block_cached(&dev, &mut *cache, 4, 900, &mut out, true),
        Err(Error::Device(Broken))
    );
    assert_eq!((cache.stats().hits, cache.stats().misses), (1, 3));
    assert_eq!(cache.stats().len, 2);
}

//! The range-tombstone merge over stored sections.

use horton::compact::merge::Input;
use horton::compact::rdel_merge::RdelMerger;
use horton::sstable::block::RdelEntry;
use horton::sstable::rdel::{write_rdel_blocks, RdelCounter, RdelWriter};
use horton::{BlockDevice, TableRef};

/// In-memory block device for merge tests.
struct TestDevice<const BLOCK: usize> {
    blocks: Vec<[u8; BLOCK]>,
}

impl<const BLOCK: usize> TestDevice<BLOCK> {
    fn new() -> Self {
        Self { blocks: Vec::new() }
    }
}

impl<const BLOCK: usize> BlockDevice for TestDevice<BLOCK> {
    type Error = core::convert::Infallible;
    const BLOCK: usize = BLOCK;

    fn read_block(&self, id: u64, buf: &mut [u8]) -> Result<(), Self::Error> {
        let mut tmp = [0u8; BLOCK];
        if let Some(b) = usize::try_from(id).ok().and_then(|i| self.blocks.get(i)) {
            tmp.copy_from_slice(b);
        }
        buf.copy_from_slice(&tmp[..buf.len()]);
        Ok(())
    }

    fn write_block(&mut self, id: u64, buf: &[u8]) -> Result<(), Self::Error> {
        if let Ok(i) = usize::try_from(id) {
            while self.blocks.len() <= i {
                self.blocks.push([0u8; BLOCK]);
            }
            self.blocks[i].copy_from_slice(&buf[..BLOCK.min(buf.len())]);
        }
        Ok(())
    }

    fn flush(&mut self) -> Result<(), Self::Error> {
        Ok(())
    }
}

/// Writes one input's rdel section at `base` from `(start, end, seq)`
/// triples (already in merge order) and returns its `TableRef`.
fn write_section<const BLOCK: usize>(
    dev: &mut TestDevice<BLOCK>,
    base: u64,
    entries: &[(&[u8], &[u8], u64)],
) -> TableRef<256> {
    let rdels: Vec<RdelEntry<'_>> = entries
        .iter()
        .map(|(s, e, seq)| RdelEntry {
            start: s,
            end: e,
            seq: *seq,
        })
        .collect();
    let rdel_blocks = write_rdel_blocks::<_, BLOCK>(dev, base, &rdels).unwrap();
    // A range-only table: no data blocks, so the rdel section starts at
    // `base` (bloom, index, and footer would follow it).
    let mut t = TableRef::<256>::empty();
    t.first_block = base;
    t.rdel_blocks = rdel_blocks;
    t.block_count = rdel_blocks + 3;
    t
}

/// Drives a merge to exhaustion, collecting `(start, end, seq)`.
fn run_merge<const BLOCK: usize>(
    dev: &TestDevice<BLOCK>,
    inputs: &[Input<256>],
    bottommost: bool,
    oldest_snapshot: u64,
) -> Vec<(Vec<u8>, Vec<u8>, u64)> {
    let mut merger = RdelMerger::<256>::new(inputs, bottommost, oldest_snapshot);
    let mut raw = [0u8; BLOCK];
    let mut out = Vec::new();
    while merger.next_merged(dev, &mut raw).unwrap() {
        let e = merger.current_entry();
        out.push((e.start.to_vec(), e.end.to_vec(), e.seq));
    }
    out
}

fn input(t: &TableRef<256>) -> Input<256> {
    Input { level: 0, tref: *t }
}

#[test]
fn rdel_merge_orders_coalesces_and_dedups() {
    let mut dev = TestDevice::<4096>::new();
    // Input 0: [a,c)@9 and [m,s)@5.
    let t0 = write_section(&mut dev, 10, &[(b"a", b"c", 9), (b"m", b"s", 5)]);
    // Input 1: [b,d)@7, an exact duplicate of [m,s)@5, and [n,t)@5
    // (same seq, overlapping -> coalesces to [m,t)@5).
    let t1 = write_section(
        &mut dev,
        20,
        &[(b"b", b"d", 7), (b"m", b"s", 5), (b"n", b"t", 5)],
    );
    let inputs = [input(&t0), input(&t1)];
    let got = run_merge(&dev, &inputs, false, 0);
    assert_eq!(
        got,
        vec![
            (b"a".to_vec(), b"c".to_vec(), 9),
            (b"b".to_vec(), b"d".to_vec(), 7),
            (b"m".to_vec(), b"t".to_vec(), 5),
        ]
    );
}

#[test]
fn rdel_merge_same_start_orders_seq_desc_and_keeps_both() {
    let mut dev = TestDevice::<4096>::new();
    let t0 = write_section(&mut dev, 10, &[(b"k", b"p", 3)]);
    let t1 = write_section(&mut dev, 20, &[(b"k", b"p", 8)]);
    let inputs = [input(&t0), input(&t1)];
    // Same (start, end), different seq: both survive, newest first: a
    // snapshot between the seqs still needs the older one.
    let got = run_merge(&dev, &inputs, false, 0);
    assert_eq!(
        got,
        vec![
            (b"k".to_vec(), b"p".to_vec(), 8),
            (b"k".to_vec(), b"p".to_vec(), 3),
        ]
    );
}

#[test]
fn rdel_merge_never_drops_newest_range() {
    // A range tombstone that is the newest covering its range is never
    // dropped, not even bottommost below the oldest snapshot. Unlike a
    // point tombstone (whose whole key goes), dropping it would resurrect
    // covered values for live snapshots and the live view.
    let mut dev = TestDevice::<4096>::new();
    let t0 = write_section(&mut dev, 10, &[(b"a", b"b", 5), (b"c", b"d", 12)]);
    let inputs = [input(&t0)];
    // Bottommost with oldest snapshot 10: nothing drops.
    let got = run_merge(&dev, &inputs, true, 10);
    assert_eq!(
        got,
        vec![
            (b"a".to_vec(), b"b".to_vec(), 5),
            (b"c".to_vec(), b"d".to_vec(), 12),
        ]
    );
    // Not bottommost: nothing drops either.
    let got = run_merge(&dev, &inputs, false, 10);
    assert_eq!(
        got,
        vec![
            (b"a".to_vec(), b"b".to_vec(), 5),
            (b"c".to_vec(), b"d".to_vec(), 12),
        ]
    );
}

#[test]
fn rdel_merge_drops_shadowed_identical_below_snapshot() {
    // An older identical-range tombstone drops only when the newer
    // shadowing tombstone is also at or below the oldest snapshot: then no
    // live reader falls between their sequences.
    let mut dev = TestDevice::<4096>::new();
    // Identical [a,z) at seq 5 and seq 8, plus an unrelated range.
    let t0 = write_section(&mut dev, 10, &[(b"a", b"z", 5)]);
    let t1 = write_section(&mut dev, 20, &[(b"a", b"z", 8), (b"m", b"n", 3)]);
    let inputs = [input(&t0), input(&t1)];
    // Oldest snapshot 8: the @8 shadow is visible to every live reader,
    // so @5 drops; the unrelated @3 is newest for its range and stays.
    let got = run_merge(&dev, &inputs, true, 8);
    assert_eq!(
        got,
        vec![
            (b"a".to_vec(), b"z".to_vec(), 8),
            (b"m".to_vec(), b"n".to_vec(), 3),
        ]
    );
    // Oldest snapshot 7: a live snapshot sits between the sequences, so @5
    // must stay.
    let got = run_merge(&dev, &inputs, true, 7);
    assert_eq!(
        got,
        vec![
            (b"a".to_vec(), b"z".to_vec(), 8),
            (b"a".to_vec(), b"z".to_vec(), 5),
            (b"m".to_vec(), b"n".to_vec(), 3),
        ]
    );
    // Not bottommost: the shadow gate never opens.
    let got = run_merge(&dev, &inputs, false, 8);
    assert_eq!(
        got,
        vec![
            (b"a".to_vec(), b"z".to_vec(), 8),
            (b"a".to_vec(), b"z".to_vec(), 5),
            (b"m".to_vec(), b"n".to_vec(), 3),
        ]
    );
}

#[test]
fn rdel_merge_spans_multiple_blocks_per_input() {
    // BLOCK=64: a 16-byte entry leaves ~3 per block, so 10 disjoint
    // entries span 4 blocks per input and stress head refill.
    let mut dev = TestDevice::<64>::new();
    let mk = |i: u8| [b'k', b'0' + i / 10, b'0' + i % 10];
    let e0: Vec<([u8; 3], [u8; 3], u64)> = (0..10)
        .map(|i| (mk(i * 2), mk(i * 2 + 1), u64::from(i)))
        .collect();
    let e1: Vec<([u8; 3], [u8; 3], u64)> = (0..10)
        .map(|i| (mk(i * 2 + 1), mk(i * 2 + 2), 100 + u64::from(i)))
        .collect();
    // Interleaved starts: input 1's entries sort between input 0's.
    let t0 = write_section(
        &mut dev,
        10,
        &e0.iter()
            .map(|(s, e, q)| (&s[..], &e[..], *q))
            .collect::<Vec<_>>(),
    );
    assert!(t0.rdel_blocks > 1);
    let t1 = write_section(
        &mut dev,
        50,
        &e1.iter()
            .map(|(s, e, q)| (&s[..], &e[..], *q))
            .collect::<Vec<_>>(),
    );
    assert!(t1.rdel_blocks > 1);
    let inputs = [input(&t0), input(&t1)];
    let got = run_merge(&dev, &inputs, false, 0);
    assert_eq!(got.len(), 20);
    // Merged output is sorted by (start asc); seqs are unique here.
    for w in got.windows(2) {
        assert!(w[0].0 < w[1].0, "out of order: {w:?}");
    }
}

#[test]
fn rdel_counter_matches_writer_block_for_block() {
    // The dry-run budget must equal the real writer's block count on the
    // same entry sequence, including multi-block packing.
    let mut dev = TestDevice::<64>::new();
    let entries: Vec<(Vec<u8>, Vec<u8>, u64)> = (0u8..25)
        .map(|i| (vec![b'a' + i % 26, b'0' + i / 26], vec![b'z'], u64::from(i)))
        .collect();
    let mut counter = RdelCounter::<64>::new();
    for (s, e, q) in &entries {
        counter.push(RdelEntry {
            start: s,
            end: e,
            seq: *q,
        });
    }
    let budgeted = counter.finish();
    let mut w = RdelWriter::<64>::new(200);
    for (s, e, q) in &entries {
        w.push(
            &mut dev,
            RdelEntry {
                start: s,
                end: e,
                seq: *q,
            },
        )
        .unwrap();
    }
    let written = w.finish(&mut dev).unwrap();
    assert_eq!(budgeted, written);
    assert!(written > 1);
}

#[test]
fn rdel_merge_empty_inputs_yield_nothing() {
    let mut dev = TestDevice::<4096>::new();
    let t0 = write_section(&mut dev, 10, &[]);
    assert_eq!(t0.rdel_blocks, 0);
    let inputs = [input(&t0)];
    assert_eq!(run_merge(&dev, &inputs, false, 0), Vec::new());
    assert_eq!(run_merge(&dev, &[], false, 0), Vec::new());
}

#[test]
fn rdel_merge_stays_exhausted() {
    let mut dev = TestDevice::<4096>::new();
    let t0 = write_section(&mut dev, 10, &[(b"a", b"c", 9)]);
    let mut merger = RdelMerger::<256>::new(&[input(&t0)], false, 0);
    let mut raw = [0u8; 4096];
    assert_eq!(merger.next_merged(&dev, &mut raw), Ok(true));
    assert_eq!(merger.next_merged(&dev, &mut raw), Ok(false));
    assert_eq!(merger.next_merged(&dev, &mut raw), Ok(false));
}

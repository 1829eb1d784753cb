//! The reference model: visibility, shadowing, the compaction keep-set and
//! manifest recovery on concrete values.

use horton::model::{
    model_keep_set, model_manifest_recover, model_may_drop_tombstone, model_scan_step,
    model_visible, model_winner, Head, SlotState, Version, MODEL_MAX_SNAPSHOTS,
};

#[test]
fn winner_is_highest_visible_seq() {
    let vs = [
        Version {
            seq: 1,
            tombstone: false,
        },
        Version {
            seq: 5,
            tombstone: false,
        },
        Version {
            seq: 3,
            tombstone: false,
        },
    ];
    assert_eq!(model_winner(&vs, u64::MAX), Some(1));
    // A watermark between versions hides the newer ones.
    assert_eq!(model_winner(&vs, 3), Some(2));
    assert_eq!(model_winner(&vs, 1), Some(0));
    assert_eq!(model_winner(&vs, 0), None);
    assert_eq!(model_winner(&[], u64::MAX), None);
}

#[test]
fn winner_tombstone_hides_key() {
    let vs = [
        Version {
            seq: 1,
            tombstone: false,
        },
        Version {
            seq: 2,
            tombstone: true,
        },
    ];
    // The winner is the tombstone: the caller maps this to "absent".
    assert_eq!(
        model_winner(&vs, u64::MAX).map(|i| vs[i].tombstone),
        Some(true)
    );
    // Before the tombstone, the value is visible.
    assert_eq!(model_winner(&vs, 1).map(|i| vs[i].tombstone), Some(false));
}

#[test]
fn visibility_is_seq_order() {
    assert!(model_visible(7, 7));
    assert!(model_visible(6, 7));
    assert!(!model_visible(8, 7));
}

#[test]
fn tombstone_drop_needs_predating_snapshot() {
    // A snapshot at or below the tombstone's seq blocks the drop.
    assert!(!model_may_drop_tombstone(7, true, 7));
    assert!(!model_may_drop_tombstone(7, true, 6));
    // A strictly newer oldest-snapshot allows it.
    assert!(model_may_drop_tombstone(7, true, 8));
    // No live snapshots: the pre-v0.5 behavior.
    assert!(model_may_drop_tombstone(7, true, u64::MAX));
    // Not bottommost: never drops, snapshots or not.
    assert!(!model_may_drop_tombstone(7, false, u64::MAX));
}

#[test]
fn scan_step_picks_min_key_max_seq() {
    let heads = [
        Some(Head {
            key: 2,
            seq: 9,
            tombstone: false,
        }),
        Some(Head {
            key: 1,
            seq: 3,
            tombstone: false,
        }),
        Some(Head {
            key: 1,
            seq: 5,
            tombstone: true,
        }),
        None,
    ];
    // Minimum key is 1; highest seq there is the tombstone at index 2.
    assert_eq!(model_scan_step(&heads, u64::MAX), Some(2));
    // A watermark hiding seq 5 falls back to seq 3.
    assert_eq!(model_scan_step(&heads, 4), Some(1));
    // Everything exhausted / invisible.
    assert_eq!(model_scan_step(&[None, None], u64::MAX), None);
    assert_eq!(model_scan_step(&heads, 0), None);
}

#[test]
fn manifest_recovery_picks_newest_valid() {
    assert_eq!(model_manifest_recover(SlotState::Valid(3), SlotState::Valid(5)), Some(5));
    assert_eq!(model_manifest_recover(SlotState::Valid(5), SlotState::Valid(3)), Some(5));
    assert_eq!(model_manifest_recover(SlotState::Valid(3), SlotState::Invalid), Some(3));
    assert_eq!(model_manifest_recover(SlotState::Invalid, SlotState::Valid(4)), Some(4));
    assert_eq!(model_manifest_recover(SlotState::Invalid, SlotState::Invalid), None);
}

/// Builds the exact version chain described by `seq_flags` (newest
/// first). Returns the fixed backing array plus the real length so
/// callers slice off the zero-filled tail: phantom `seq: 0` entries
/// must never reach the model.
fn versions(seq_flags: &[(u64, bool)]) -> ([Version; 5], usize) {
    let mut vs = [Version {
        seq: 0,
        tombstone: false,
    }; 5];
    for (i, (seq, tombstone)) in seq_flags.iter().enumerate() {
        vs[i] = Version {
            seq: *seq,
            tombstone: *tombstone,
        };
    }
    (vs, seq_flags.len())
}

/// The keep-set always covers every threshold: each snapshot's (and the
/// live view's) visible version survives the merge.
#[test]
fn keep_set_covers_every_threshold() {
    // Newest-first: seqs 9, 7, 5, 3, 1.
    let (vs, nv) = versions(&[(9, false), (7, false), (5, false), (3, false), (1, false)]);
    let vs = &vs[..nv];
    let snaps = [8, 6, 2];
    let (kept, n) = model_keep_set(vs, &snaps, true, 2);
    let kept = &kept[..n];
    // Live view keeps 9 (idx 0); snap 8 keeps 7 (idx 1); snap 6 keeps
    // 5 (idx 2); snap 2 keeps 1 (idx 4). Version 3 (idx 3) serves no
    // threshold and is dropped.
    assert_eq!(kept, &[0, 1, 2, 4]);
    // Every threshold's model_winner is in the keep-set.
    for th in [u64::MAX, 8, 6, 2] {
        let w = model_winner(vs, th).unwrap();
        assert!(kept.contains(&w), "threshold {th} not covered");
    }
}

#[test]
fn keep_set_without_snapshots_keeps_only_newest() {
    let (vs, nv) = versions(&[(5, false), (3, true), (1, false)]);
    let vs = &vs[..nv];
    let (kept, n) = model_keep_set(vs, &[], true, u64::MAX);
    assert_eq!(&kept[..n], &[0]);
}

#[test]
fn keep_set_shares_versions_across_thresholds() {
    // One version can serve several thresholds: seq 5 is visible at
    // the live view and at snapshots 9 and 6.
    let (vs, nv) = versions(&[(5, false), (2, false)]);
    let vs = &vs[..nv];
    let (kept, n) = model_keep_set(vs, &[9, 6], false, 6);
    assert_eq!(&kept[..n], &[0]);
}

#[test]
fn keep_set_drop_needs_bottommost_predating_tombstone() {
    let (vs, nv) = versions(&[(4, true), (2, false)]);
    let vs = &vs[..nv];
    // Tombstone predates every snapshot: the whole key drops.
    let (_, n) = model_keep_set(vs, &[9, 7], true, 7);
    assert_eq!(n, 0);
    // A snapshot at the tombstone's seq blocks the drop: the tombstone
    // is that snapshot's visible version, so it is kept.
    let (kept, n) = model_keep_set(vs, &[9, 4], true, 4);
    assert_eq!(&kept[..n], &[0]);
    // Not bottommost: the tombstone always survives (deeper levels may
    // hide older versions behind it).
    let (kept, n) = model_keep_set(vs, &[9, 7], false, 7);
    assert_eq!(&kept[..n], &[0]);
    // No live snapshots: oldest is u64::MAX, the tombstone drops.
    let (_, n) = model_keep_set(vs, &[], true, u64::MAX);
    assert_eq!(n, 0);
}

#[test]
fn keep_set_never_exceeds_threshold_count() {
    // More versions than thresholds: at most 1 + n_snapshots survive.
    let (vs, nv) = versions(&[(10, false), (9, false), (8, false), (7, false), (6, false)]);
    let vs = &vs[..nv];
    let (kept, n) = model_keep_set(vs, &[9, 5], true, 5);
    assert!(n <= 3);
    // Snap 5 covers nothing (oldest version is seq 6); snap 9 keeps
    // idx 1 and the live view keeps idx 0.
    assert_eq!(&kept[..n], &[0, 1]);
}

#[test]
fn keep_set_empty_key_stays_empty() {
    let (kept, n) = model_keep_set(&[], &[5], true, 5);
    assert_eq!(n, 0);
    assert_eq!(kept, [0usize; MODEL_MAX_SNAPSHOTS + 1]);
}

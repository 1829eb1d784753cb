//! Executable models of the two core rules of the store.
//!
//! 1. **Commit atomicity.** A crash at any point leaves exactly the
//!    pre-commit or the post-commit state, never a mix: flush and compaction
//!    publish new state through a single manifest commit;
//!    [`model_manifest_recover`] is the recovery rule.
//! 2. **Sequence-ordered visibility.** A read observes, per key, the
//!    highest-sequence mutation at or below its snapshot watermark; a
//!    tombstone there hides the key. [`model_winner`] is the pure core of the
//!    per-key read, [`model_scan_step`] that of one scan step,
//!    [`model_keep_set`] the exact per-key keep-set the compaction merge
//!    emits, and [`model_may_drop_tombstone`] the rule that keeps compaction
//!    from breaking snapshot isolation.

use vstd::prelude::*;

verus! {

/// One key-version in the model: a mutation's sequence number and whether
/// it was a deletion.
#[derive(Clone, Copy, Debug, PartialEq, Eq, Structural)]
pub struct Version {
    /// Sequence number assigned to the mutation.
    pub seq: u64,
    /// True for a deletion marker.
    pub tombstone: bool,
}

/// Maximum snapshots the keep-set model accepts (mirrors the `Db` bound).
pub const MODEL_MAX_SNAPSHOTS: usize = 8;

/// One threshold per snapshot, plus the live view.
pub const MODEL_MAX_KEPT: usize = 9;

/// Version `i` is the first in the chain at or below `th`.
pub open spec fn is_first_visible(versions: Seq<Version>, th: u64, i: int) -> bool {
    &&& 0 <= i < versions.len()
    &&& versions[i].seq <= th
    &&& forall|j: int| 0 <= j < i ==> #[trigger] versions[j].seq > th
}

/// The thresholds of the keep-set: the live view, then each snapshot.
pub open spec fn threshold(snapshots: Seq<u64>, t: int) -> u64 {
    if t == 0 {
        u64::MAX
    } else {
        snapshots[t - 1]
    }
}

/// Version `i` serves one of the first `n` thresholds.
pub open spec fn serves(versions: Seq<Version>, snapshots: Seq<u64>, n: int, i: int) -> bool {
    exists|t: int|
        0 <= t < n && #[trigger] is_first_visible(versions, threshold(snapshots, t), i)
}

/// How many thresholds the keep-set has.
pub open spec fn threshold_count(snapshots: Seq<u64>) -> int {
    1 + if snapshots.len() < MODEL_MAX_SNAPSHOTS {
        snapshots.len() as int
    } else {
        MODEL_MAX_SNAPSHOTS as int
    }
}

/// The whole key drops: bottommost, and the newest version is a tombstone
/// older than every live snapshot.
pub open spec fn key_drops(
    versions: Seq<Version>,
    bottommost: bool,
    oldest_snapshot: u64,
) -> bool {
    &&& bottommost
    &&& versions.len() > 0
    &&& versions[0].tombstone
    &&& versions[0].seq < oldest_snapshot
}

/// The versions of a chain run from newest to oldest.
pub open spec fn newest_first(versions: Seq<Version>) -> bool {
    forall|i: int, j: int| 0 <= i < j < versions.len() ==> versions[i].seq >= versions[j].seq
}

/// Strictly ascending prefix of length `n`, zeros after it.
pub open spec fn ascending_prefix(kept: Seq<usize>, n: int) -> bool {
    &&& forall|a: int, b: int| 0 <= a < b < n ==> kept[a] < kept[b]
    &&& forall|a: int| n <= a < kept.len() ==> kept[a] == 0
}

/// The first version of the chain at or below `th`.
fn first_visible(versions: &[Version], th: u64) -> (r: Option<usize>)
    ensures
        match r {
            Some(i) => is_first_visible(versions@, th, i as int),
            None => forall|i: int| !#[trigger] is_first_visible(versions@, th, i),
        },
{
    let mut vi: usize = 0;
    while vi < versions.len()
        invariant
            vi <= versions@.len(),
            forall|j: int| 0 <= j < vi ==> #[trigger] versions@[j].seq > th,
        decreases versions@.len() - vi,
    {
        if versions[vi].seq <= th {
            return Some(vi);
        }
        vi = vi + 1;
    }
    None
}

/// Inserts `v` into the ascending prefix `kept[..n]` unless it is there;
/// gives the new length.
fn keep_index(kept: &mut [usize; MODEL_MAX_KEPT], n: usize, v: usize) -> (m: usize)
    requires
        n < MODEL_MAX_KEPT,
        ascending_prefix(old(kept)@, n as int),
    ensures
        n <= m <= n + 1,
        ascending_prefix(final(kept)@, m as int),
        forall|x: usize|
            #[trigger] final(kept)@.take(m as int).contains(x) <==> old(kept)@.take(
                n as int,
            ).contains(x) || x == v,
{
    let mut p: usize = 0;
    while p < n && kept[p] < v
        invariant
            p <= n,
            n < MODEL_MAX_KEPT,
            forall|a: int| 0 <= a < p ==> kept@[a] < v,
        decreases n - p,
    {
        p = p + 1;
    }
    let ghost before = kept@.take(n as int);
    if p < n && kept[p] == v {
        assert(before[p as int] == v);
        return n;
    }
    let mut j: usize = n;
    while j > p
        invariant
            p <= j <= n,
            n < MODEL_MAX_KEPT,
            kept@.len() == MODEL_MAX_KEPT,
            forall|a: int| 0 <= a < j ==> kept@[a] == old(kept)@[a],
            forall|a: int| j < a <= n ==> #[trigger] kept@[a] == old(kept)@[a - 1],
            forall|a: int| n < a < MODEL_MAX_KEPT ==> kept@[a] == old(kept)@[a],
        decreases j - p,
    {
        let x: usize = kept[j - 1];
        kept[j] = x;
        j = j - 1;
    }
    kept[p] = v;
    let ghost after = kept@.take(n + 1);
    assert(after =~= before.insert(p as int, v));
    assert forall|x: usize| #[trigger] after.contains(x) <==> before.contains(x) || x == v by {
        if after.contains(x) {
            let a = choose|a: int| 0 <= a < after.len() && after[a] == x;
            if a < p {
                assert(before[a] == x);
            } else if a > p {
                assert(before[a - 1] == x);
            }
        }
        if before.contains(x) {
            let a = choose|a: int| 0 <= a < before.len() && before[a] == x;
            if a < p {
                assert(after[a] == x);
            } else {
                assert(after[a + 1] == x);
            }
        }
        assert(after[p as int] == v);
    }
    assert forall|a: int, b: int| 0 <= a < b < n + 1 implies kept@[a] < kept@[b] by {
        if a > p {
            assert(kept@[a] == old(kept)@[a - 1]);
        }
        if b > p {
            assert(kept@[b] == old(kept)@[b - 1]);
        }
    }
    n + 1
}

/// Models the compaction per-key keep-set: which of a key's versions survive
/// the merge.
///
/// `versions` is the key's full version chain in newest-first order.
///
/// Threshold 0 is the live view (`u64::MAX`); the rest are the live snapshot
/// watermarks. Each threshold is served by the first version at or below it,
/// and a version is kept exactly when it serves at least one threshold.
///
/// When `bottommost` is true and the newest version is a tombstone older
/// than every live snapshot, the whole key drops (see
/// [`model_may_drop_tombstone`]).
///
/// Returns the kept indices in ascending order and how many are valid.
#[must_use]
pub fn model_keep_set(
    versions: &[Version],
    snapshots: &[u64],
    bottommost: bool,
    oldest_snapshot: u64,
) -> (r: ([usize; MODEL_MAX_KEPT], usize))
    ensures
        0 <= r.1 <= threshold_count(snapshots@),
        ascending_prefix(r.0@, r.1 as int),
        key_drops(versions@, bottommost, oldest_snapshot) ==> r.1 == 0,
        !key_drops(versions@, bottommost, oldest_snapshot) ==> forall|i: usize|
            #[trigger] r.0@.take(r.1 as int).contains(i) <==> serves(
                versions@,
                snapshots@,
                threshold_count(snapshots@),
                i as int,
            ),
{
    let mut kept: [usize; MODEL_MAX_KEPT] = [0usize; MODEL_MAX_KEPT];
    if versions.len() > 0 && versions[0].tombstone && model_may_drop_tombstone(
        versions[0].seq,
        bottommost,
        oldest_snapshot,
    ) {
        return (kept, 0);
    }
    let nsnap: usize = if snapshots.len() < MODEL_MAX_SNAPSHOTS {
        snapshots.len()
    } else {
        MODEL_MAX_SNAPSHOTS
    };
    let mut n: usize = 0;
    let mut ti: usize = 0;
    assert(kept@.take(0) =~= Seq::<usize>::empty());
    while ti <= nsnap
        invariant
            nsnap + 1 == threshold_count(snapshots@),
            ti <= nsnap + 1,
            nsnap <= MODEL_MAX_SNAPSHOTS,
            n <= ti,
            ascending_prefix(kept@, n as int),
            forall|i: usize|
                #[trigger] kept@.take(n as int).contains(i) <==> serves(
                    versions@,
                    snapshots@,
                    ti as int,
                    i as int,
                ),
        decreases nsnap + 1 - ti,
    {
        let th: u64 = if ti == 0 {
            u64::MAX
        } else {
            snapshots[ti - 1]
        };
        let ghost before = kept@.take(n as int);
        assert(th == threshold(snapshots@, ti as int));
        let found: Option<usize> = first_visible(versions, th);
        if let Some(vi) = found {
            n = keep_index(&mut kept, n, vi);
        }
        assert forall|i: usize| #[trigger] kept@.take(n as int).contains(i) <==> serves(
            versions@,
            snapshots@,
            ti + 1,
            i as int,
        ) by {
            if serves(versions@, snapshots@, ti as int, i as int) {
                let t = choose|t: int|
                    0 <= t < ti && #[trigger] is_first_visible(
                        versions@,
                        threshold(snapshots@, t),
                        i as int,
                    );
                assert(is_first_visible(versions@, threshold(snapshots@, t), i as int));
            }
            if let Some(vi) = found {
                assert(is_first_visible(versions@, threshold(snapshots@, ti as int), vi as int));
                if is_first_visible(versions@, th, i as int) && i != vi {
                    if i < vi {
                        assert(versions@[i as int].seq > th);
                    } else {
                        assert(versions@[vi as int].seq > th);
                    }
                }
            }
            if kept@.take(n as int).contains(i) {
                assert(before.contains(i) || found == Some(i));
            }
        }
        ti = ti + 1;
    }
    (kept, n)
}

/// Version `i` wins at `max_seq`: visible, and no visible version has a
/// higher sequence, nor the same one earlier in the chain.
pub open spec fn is_winner(versions: Seq<Version>, max_seq: u64, i: int) -> bool {
    &&& 0 <= i < versions.len()
    &&& versions[i].seq <= max_seq
    &&& forall|j: int|
        0 <= j < versions.len() && #[trigger] versions[j].seq <= max_seq ==> versions[j].seq
            < versions[i].seq || (versions[j].seq == versions[i].seq && i <= j)
}

/// Models winner selection for one key: among versions with
/// `seq <= max_seq`, the highest sequence number wins. Returns the winning
/// version's index, or `None` when nothing is visible at `max_seq`.
#[must_use]
pub fn model_winner(versions: &[Version], max_seq: u64) -> (r: Option<usize>)
    ensures
        match r {
            Some(i) => is_winner(versions@, max_seq, i as int),
            None => forall|j: int|
                0 <= j < versions@.len() ==> #[trigger] versions@[j].seq > max_seq,
        },
{
    let mut best: Option<usize> = None;
    let mut i: usize = 0;
    while i < versions.len()
        invariant
            i <= versions@.len(),
            match best {
                Some(b) => b < i && is_winner(versions@.take(i as int), max_seq, b as int),
                None => forall|j: int| 0 <= j < i ==> #[trigger] versions@[j].seq > max_seq,
            },
        decreases versions@.len() - i,
    {
        let ghost prev = versions@.take(i as int);
        let ghost next = versions@.take(i + 1);
        assert(forall|j: int| 0 <= j < i ==> #[trigger] next[j] == prev[j]);
        if versions[i].seq <= max_seq {
            let better: bool = match best {
                Some(b) => versions[i].seq > versions[b].seq,
                None => true,
            };
            if better {
                best = Some(i);
            }
        }
        assert(next[i as int] == versions@[i as int]);
        i = i + 1;
    }
    assert(versions@.take(i as int) =~= versions@);
    best
}

/// The keep-set covers every threshold: in a newest-first chain, the version
/// that a read at one of the thresholds would observe serves it.
pub proof fn law_keep_set_covers(
    versions: Seq<Version>,
    snapshots: Seq<u64>,
    t: int,
    i: int,
)
    requires
        newest_first(versions),
        0 <= t < threshold_count(snapshots),
        is_winner(versions, threshold(snapshots, t), i),
    ensures
        serves(versions, snapshots, threshold_count(snapshots), i),
{
    let th = threshold(snapshots, t);
    assert forall|j: int| 0 <= j < i implies #[trigger] versions[j].seq > th by {
        if versions[j].seq <= th {
            assert(versions[j].seq >= versions[i].seq);
        }
    }
    assert(is_first_visible(versions, th, i));
}

/// The keep-set keeps nothing that no reader can observe: in a newest-first
/// chain, every kept version is the one some threshold's read observes.
pub proof fn law_keep_set_minimal(versions: Seq<Version>, snapshots: Seq<u64>, i: int)
    requires
        newest_first(versions),
        serves(versions, snapshots, threshold_count(snapshots), i),
    ensures
        exists|t: int|
            0 <= t < threshold_count(snapshots) && #[trigger] is_winner(
                versions,
                threshold(snapshots, t),
                i,
            ),
{
    let t = choose|t: int|
        0 <= t < threshold_count(snapshots) && #[trigger] is_first_visible(
            versions,
            threshold(snapshots, t),
            i,
        );
    assert(is_winner(versions, threshold(snapshots, t), i));
}

/// Dropping a whole key hides nothing from any reader: at the live view and
/// at every snapshot at or above the oldest one, the read observes the
/// dropped tombstone.
pub proof fn law_dropped_key_reads_absent(
    versions: Seq<Version>,
    bottommost: bool,
    oldest_snapshot: u64,
    view: u64,
    i: int,
)
    requires
        newest_first(versions),
        key_drops(versions, bottommost, oldest_snapshot),
        view >= oldest_snapshot,
        is_winner(versions, view, i),
    ensures
        versions[i].tombstone,
{
    assert(versions[0].seq <= view);
    assert(versions[0].seq >= versions[i].seq);
}

/// Models snapshot visibility: a mutation is visible at a snapshot iff it
/// was sequenced at or before the watermark.
#[must_use]
pub fn model_visible(mutation_seq: u64, snapshot: u64) -> (r: bool)
    ensures
        r == (mutation_seq <= snapshot),
{
    mutation_seq <= snapshot
}

/// Models the bottommost tombstone-drop rule: a tombstone with sequence
/// `tomb_seq` may be dropped by a bottommost compaction only when every
/// live snapshot is strictly newer than it. `oldest_snapshot` is `u64::MAX`
/// when no snapshot is live.
#[must_use]
pub fn model_may_drop_tombstone(tomb_seq: u64, bottommost: bool, oldest_snapshot: u64) -> (r: bool)
    ensures
        r == (bottommost && tomb_seq < oldest_snapshot),
{
    bottommost && tomb_seq < oldest_snapshot
}

/// One source head in the scan model. Key bytes are modeled as a rank: the
/// model only needs their total order.
#[derive(Clone, Copy, Debug, PartialEq, Eq, Structural)]
pub struct Head {
    /// Key rank (models the total order on key bytes).
    pub key: u64,
    /// The head entry's sequence number.
    pub seq: u64,
    /// Whether the head entry is a tombstone.
    pub tombstone: bool,
}

/// Head `i` is live and visible at `max_seq`.
pub open spec fn head_visible(heads: Seq<Option<Head>>, max_seq: u64, i: int) -> bool {
    &&& 0 <= i < heads.len()
    &&& heads[i] matches Some(h) && h.seq <= max_seq
}

/// Head `i` is what the scan emits next: on the minimum visible key, with
/// the highest visible sequence there, and the first such head.
pub open spec fn is_scan_winner(heads: Seq<Option<Head>>, max_seq: u64, i: int) -> bool {
    &&& head_visible(heads, max_seq, i)
    &&& forall|j: int|
        #[trigger] head_visible(heads, max_seq, j) ==> {
            ||| heads[i]->0.key < heads[j]->0.key
            ||| heads[i]->0.key == heads[j]->0.key && heads[i]->0.seq > heads[j]->0.seq
            ||| heads[i]->0.key == heads[j]->0.key && heads[i]->0.seq == heads[j]->0.seq && i <= j
        }
}

/// Models one scan step: the winning head's index, or `None` when every
/// source is exhausted.
///
/// The winner sits on the minimum visible key with the highest sequence
/// number. Heads with `seq > max_seq` are filtered first.
#[must_use]
pub fn model_scan_step(heads: &[Option<Head>], max_seq: u64) -> (r: Option<usize>)
    ensures
        match r {
            Some(i) => is_scan_winner(heads@, max_seq, i as int),
            None => forall|j: int| !#[trigger] head_visible(heads@, max_seq, j),
        },
{
    let mut min_key: Option<u64> = None;
    let mut i: usize = 0;
    while i < heads.len()
        invariant
            i <= heads@.len(),
            match min_key {
                Some(m) => {
                    &&& exists|j: int|
                        j < i && #[trigger] head_visible(heads@, max_seq, j) && heads@[j]->0.key
                            == m
                    &&& forall|j: int|
                        j < i && #[trigger] head_visible(heads@, max_seq, j) ==> m
                            <= heads@[j]->0.key
                },
                None => forall|j: int| j < i ==> !#[trigger] head_visible(heads@, max_seq, j),
            },
        decreases heads@.len() - i,
    {
        if let Some(h) = heads[i] {
            if h.seq <= max_seq {
                assert(head_visible(heads@, max_seq, i as int));
                let lower: bool = match min_key {
                    Some(m) => h.key < m,
                    None => true,
                };
                if lower {
                    min_key = Some(h.key);
                }
            }
        }
        i = i + 1;
    }
    let min: u64 = match min_key {
        Some(m) => m,
        None => {
            return None;
        },
    };
    let mut winner: Option<usize> = None;
    let mut winner_seq: u64 = 0;
    let mut k: usize = 0;
    while k < heads.len()
        invariant
            k <= heads@.len(),
            match winner {
                Some(w) => {
                    &&& w < k
                    &&& head_visible(heads@, max_seq, w as int)
                    &&& heads@[w as int]->0.key == min
                    &&& heads@[w as int]->0.seq == winner_seq
                    &&& forall|j: int|
                        j < k && #[trigger] head_visible(heads@, max_seq, j) && heads@[j]->0.key
                            == min ==> heads@[j]->0.seq < winner_seq || (heads@[j]->0.seq
                            == winner_seq && w <= j)
                },
                None => forall|j: int|
                    j < k && #[trigger] head_visible(heads@, max_seq, j) ==> heads@[j]->0.key
                        != min,
            },
        decreases heads@.len() - k,
    {
        if let Some(h) = heads[k] {
            if h.seq <= max_seq && h.key == min {
                assert(head_visible(heads@, max_seq, k as int));
                if winner.is_none() || h.seq > winner_seq {
                    winner = Some(k);
                    winner_seq = h.seq;
                }
            }
        }
        k = k + 1;
    }
    winner
}

/// State of one manifest slot in the model.
#[derive(Clone, Copy, Debug, PartialEq, Eq, Structural)]
pub enum SlotState {
    /// Slot holds a complete, CRC-valid manifest with this sequence.
    Valid(u64),
    /// Slot is blank or torn (failed CRC).
    Invalid,
}

/// Models double-buffered manifest recovery: the valid slot with the
/// highest sequence wins.
#[must_use]
pub fn model_manifest_recover(a: SlotState, b: SlotState) -> (r: Option<u64>)
    ensures
        r is None <==> a is Invalid && b is Invalid,
        r matches Some(s) ==> {
            &&& a == SlotState::Valid(s) || b == SlotState::Valid(s)
            &&& a matches SlotState::Valid(x) ==> x <= s
            &&& b matches SlotState::Valid(y) ==> y <= s
        },
{
    match (a, b) {
        (SlotState::Valid(sa), SlotState::Valid(sb)) => Some(
            if sa >= sb {
                sa
            } else {
                sb
            },
        ),
        (SlotState::Valid(sa), SlotState::Invalid) => Some(sa),
        (SlotState::Invalid, SlotState::Valid(sb)) => Some(sb),
        (SlotState::Invalid, SlotState::Invalid) => None,
    }
}

/// The winner is the newest visible version, the first of them where two
/// share a sequence, and there is one exactly where some version is visible.
pub proof fn law_winner_is_newest(versions: Seq<Version>, max_seq: u64, i: int)
    requires
        0 <= i < versions.len(),
    ensures
        is_winner(versions, max_seq, i) <==> versions[i].seq <= max_seq && (forall|j: int|
            i < j < versions.len() && #[trigger] versions[j].seq <= max_seq ==> versions[j].seq
                <= versions[i].seq) && (forall|j: int|
            0 <= j < i && #[trigger] versions[j].seq <= max_seq ==> versions[j].seq
                < versions[i].seq),
{
}

/// A scan emits the least visible key first, its newest version, and the
/// first source among equals.
pub proof fn law_scan_takes_least(heads: Seq<Option<Head>>, max_seq: u64, i: int, j: int)
    requires
        0 <= i < heads.len(),
        0 <= j < heads.len(),
        is_scan_winner(heads, max_seq, i),
        heads[j] matches Some(h) && h.seq <= max_seq,
    ensures
        heads[i] is Some,
        heads[i]->0.seq <= max_seq,
        heads[i]->0.key <= heads[j]->0.key,
        heads[i]->0.key == heads[j]->0.key ==> heads[i]->0.seq >= heads[j]->0.seq,
        heads[i]->0.key == heads[j]->0.key && heads[i]->0.seq == heads[j]->0.seq ==> i <= j,
{
    assert(head_visible(heads, max_seq, j));
}

/// What the keep-set holds: the newest version, and for each of up to eight
/// snapshots the newest that it sees; of a dropped key nothing, and a key
/// drops exactly where its newest version is a tombstone at the bottom that
/// is older than every snapshot.
pub proof fn law_keep_set_is(
    versions: Seq<Version>,
    snapshots: Seq<u64>,
    bottommost: bool,
    oldest_snapshot: u64,
    i: int,
)
    requires
        newest_first(versions),
        0 <= i < versions.len(),
        snapshots.len() <= 8,
    ensures
        serves(versions, snapshots, threshold_count(snapshots), i) <==> i == 0 || exists|t: int|
            0 <= t < snapshots.len() && versions[i].seq <= #[trigger] snapshots[t] && versions[i
                - 1].seq > snapshots[t],
        key_drops(versions, bottommost, oldest_snapshot) <==> bottommost && versions[0].tombstone
            && versions[0].seq < oldest_snapshot,
{
    let n = threshold_count(snapshots);
    if i == 0 {
        assert(is_first_visible(versions, threshold(snapshots, 0), 0));
    } else if serves(versions, snapshots, n, i) {
        let t = choose|t: int|
            0 <= t < n && #[trigger] is_first_visible(versions, threshold(snapshots, t), i);
        assert(versions[i - 1].seq > threshold(snapshots, t));
        assert(t > 0);
        let u = t - 1;
        assert(versions[i].seq <= snapshots[u] && versions[i - 1].seq > snapshots[u]);
    }
    if i > 0 && exists|t: int|
        0 <= t < snapshots.len() && versions[i].seq <= #[trigger] snapshots[t] && versions[i
            - 1].seq > snapshots[t] {
        let t = choose|t: int|
            0 <= t < snapshots.len() && versions[i].seq <= #[trigger] snapshots[t] && versions[i
                - 1].seq > snapshots[t];
        assert forall|j: int| 0 <= j < i implies #[trigger] versions[j].seq > snapshots[t] by {
            if j < i - 1 {
                assert(versions[j].seq >= versions[i - 1].seq);
            }
        }
        assert(threshold(snapshots, t + 1) == snapshots[t]);
        assert(is_first_visible(versions, threshold(snapshots, t + 1), i));
    }
}

} // verus!

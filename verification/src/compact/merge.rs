//! The compaction scratch and its bounded merge step.

use vstd::prelude::*;

use super::cursor::{fault_error, Cursor, StreamV};
use super::sift::{
    drained, emits, is_pick, keep_wf, key_after, key_at, left_in, lemma_left_popped,
    lemma_zip_end, lemma_zip_step, popped, served, settled, sifted, surfaces, wanted, zipped,
    KeepV, KeyV,
};
use crate::bytes::{
    bytes_eq, bytes_lt, copy_into, lemma_lex_asymmetric, lemma_lex_irreflexive, lemma_lex_lt_le,
    lemma_lex_total, lex_le, spliced,
};
use crate::compress::CompressScratch;
use crate::device::{same_outside, synced_outside, BlockDevice};
use crate::error::Error;
use crate::manifest::TableRef;
use crate::memtable::Rec;
use crate::model::threshold;
use crate::sstable::format::is_data_block;
use crate::sstable::writer::{
    data_image, push_all, push_next, PushOutcome, SstEntry, TableWriter, WriterV,
};

verus! {

/// Maximum tables merged in one compaction job.
pub const COMPACTION_KMAX: usize = 8;

/// Maximum live snapshots.
pub const MAX_SNAPSHOTS: usize = 8;

/// One threshold per snapshot, plus the live view.
pub const THRESHOLDS: usize = 9;

/// What [`Db::compact_step`](crate::db::Db::compact_step) accomplished.
#[derive(Debug, Clone, Copy, PartialEq, Eq, Structural)]
pub enum Progress {
    /// No compaction was needed, or the selected job just committed.
    Done,
    /// The job made bounded progress (one output block sealed); call again.
    More,
}

/// Merge state of the key currently being compacted. A sealed output block
/// may interrupt a key mid-versions; this plus the `served` flags resume it
/// exactly.
#[derive(Debug, Clone, Copy, PartialEq, Eq, Structural)]
enum KeyState {
    /// No key is being merged (between keys, or the job just started).
    Idle,
    /// Merging versions of `key`; thresholds in `served` are being filled.
    Merging,
    /// The active key's versions are all dropped.
    Dropping,
}

/// Whether a scratch holds a job.
#[derive(Debug, Clone, Copy, PartialEq, Eq, Structural)]
pub enum State {
    /// No job.
    Idle,
    /// A job is being merged.
    Merging,
}

/// One input table: its level and manifest reference.
#[derive(Clone, Copy)]
pub struct Input<const KEY_MAX: usize> {
    /// Level of the table.
    pub level: usize,
    /// Its manifest reference.
    pub tref: TableRef<KEY_MAX>,
}

impl<const KEY_MAX: usize> Input<KEY_MAX> {
    /// No table.
    #[must_use]
    pub fn empty() -> (r: Self)
        ensures
            r.tref.wf(),
    {
        Input { level: 0, tref: TableRef::empty() }
    }
}

/// What one [`Compaction::merge_step`] did.
#[derive(Debug, Clone, Copy, PartialEq, Eq, Structural)]
pub enum MergeOutcome {
    /// One output block sealed; the merge has more entries.
    More,
    /// Every input is exhausted; the caller should commit.
    Exhausted,
}

/// What a merge keeps by; its view says what each part means.
#[derive(Debug, Clone, Copy)]
pub struct Rules {
    /// Nothing below the output holds its keys.
    pub bottommost: bool,
    /// Live snapshot watermarks.
    pub snapshots: [u64; MAX_SNAPSHOTS],
    /// How many of them there are.
    pub n_snapshots: usize,
    /// The oldest of them.
    pub oldest_snapshot: u64,
    /// Lowest sequence outside the merge.
    pub outside_min_seq: u64,
    /// Purge cutoff.
    pub purge_before: u64,
}

impl View for Rules {
    type V = KeepV;

    open spec fn view(&self) -> KeepV {
        KeepV {
            bottommost: self.bottommost,
            snapshots: self.snapshots@.take(self.n_snapshots as int),
            oldest_snapshot: self.oldest_snapshot,
            outside_min_seq: self.outside_min_seq,
            purge_before: self.purge_before,
        }
    }
}

impl Rules {
    /// The value of threshold `ti`: the live view, then the snapshots.
    fn threshold_at(&self, ti: usize) -> (r: u64)
        requires
            self.n_snapshots <= MAX_SNAPSHOTS,
            ti <= self.n_snapshots,
        ensures
            r == threshold(self@.snapshots, ti as int),
    {
        if ti == 0 {
            u64::MAX
        } else {
            self.snapshots[ti - 1]
        }
    }
}

/// The key currently being merged: a sealed output block may interrupt a
/// key mid-versions, and matching on these bytes resumes it exactly
/// (thresholds already served are not served twice).
pub struct KeyTrack<const KEY_MAX: usize> {
    key: [u8; KEY_MAX],
    key_len: usize,
    key_state: KeyState,
    // Thresholds served for `key`: index 0 is the live view, indices
    // `1..=n_snapshots` are the snapshots.
    served: [bool; THRESHOLDS],
    // Lowest sequence emitted for `key`.
    low: Ghost<Option<u64>>,
}

impl<const KEY_MAX: usize> KeyTrack<KEY_MAX> {
    /// The served flags tell which thresholds the emitted versions serve.
    pub closed spec fn wf(&self, p: KeepV) -> bool {
        &&& self.key_len <= KEY_MAX
        &&& p.snapshots.len() <= MAX_SNAPSHOTS
        &&& self.key_state != KeyState::Idle ==> forall|t: int|
            0 <= t <= p.snapshots.len() ==> #[trigger] self.served@[t] == served(p, self.low@, t)
    }

    /// The key being merged.
    pub closed spec fn active(&self) -> Option<KeyV> {
        if self.key_state == KeyState::Idle {
            None
        } else {
            Some(
                KeyV {
                    key: self.key@.take(self.key_len as int),
                    dropping: self.key_state == KeyState::Dropping,
                    low: self.low@,
                },
            )
        }
    }

    /// No key.
    pub fn new() -> (r: Self)
        ensures
            r.active() is None,
            forall|p: KeepV| p.snapshots.len() <= MAX_SNAPSHOTS ==> #[trigger] r.wf(p),
    {
        KeyTrack {
            key: [0u8;KEY_MAX],
            key_len: 0,
            key_state: KeyState::Idle,
            served: [false;THRESHOLDS],
            low: Ghost(None),
        }
    }

    /// Ends the key.
    pub fn stop(&mut self)
        ensures
            final(self).active() is None,
            forall|p: KeepV| p.snapshots.len() <= MAX_SNAPSHOTS ==> #[trigger] final(self).wf(p),
    {
        self.key_state = KeyState::Idle;
        self.key_len = 0;
    }

    /// True when the key's versions are all dropped.
    fn dropping(&self) -> (r: bool)
        ensures
            r == (self.active() matches Some(k) && k.dropping),
    {
        self.key_state == KeyState::Dropping
    }

    /// Takes the head of `cur` into the per-key state: a new key (re)starts
    /// it; after a mid-key seal the bytes match and the served flags resume
    /// the key exactly where it stopped.
    fn look_at<const BLOCK: usize, const VAL_MAX: usize>(
        &mut self,
        rules: &Rules,
        cur: &Cursor<BLOCK, KEY_MAX, VAL_MAX>,
    )
        requires
            old(self).wf(rules@),
            rules.n_snapshots <= MAX_SNAPSHOTS,
            cur.wf(),
            cur.is_live(),
        ensures
            final(self).wf(rules@),
            final(self).active() == Some(key_at(rules@, old(self).active(), cur.head_rec())),
    {
        let ghost e = cur.head_rec();
        let ghost k0 = self.active();
        proof {
            cur.lemma_head(Map::empty());
        }
        let hlen: usize = cur.key().len();
        let klen: usize = self.key_len;
        assert(self.key@.subrange(0, klen as int) =~= self.key@.take(klen as int));
        let fresh: bool = self.key_state == KeyState::Idle || !bytes_eq(
            &self.key[0..klen],
            cur.key(),
        );
        if fresh {
            copy_into(&mut self.key, 0, cur.key());
            self.key_len = hlen;
            self.key_state = KeyState::Merging;
            self.served = [false;THRESHOLDS];
            proof {
                reveal(spliced);
                self.low@ = None;
                assert(self.key@.take(hlen as int) =~= e.key);
            }
            // Bottommost tombstone drop: the head is the key's newest
            // version. Dropping the whole key is safe exactly when the
            // tombstone predates every live snapshot: then each snapshot's
            // visible version is the tombstone itself, the keep-set is just
            // it, and deletion is observationally identical to absence. A
            // value the TTL purge will convert to a tombstone counts as one
            // here, so the drop matches a caller-issued delete exactly.
            let expire_at: u64 = cur.expire_at();
            let seq: u64 = cur.seq();
            let effective: bool = cur.tombstone() || (expire_at != 0 && expire_at
                <= rules.purge_before);
            if rules.bottommost && effective && seq < rules.oldest_snapshot && seq
                < rules.outside_min_seq {
                self.key_state = KeyState::Dropping;
            }
            assert(self.active() == Some(key_at(rules@, k0, e)));
        }
    }

    /// True when some unserved threshold covers `seq`.
    fn wants(&self, rules: &Rules, seq: u64) -> (r: bool)
        requires
            self.wf(rules@),
            rules.n_snapshots <= MAX_SNAPSHOTS,
            self.active() is Some,
        ensures
            r == wanted(rules@, self.active()->0.low, seq),
    {
        let ghost p = rules@;
        let ghost low = self.low@;
        let mut ti: usize = 0;
        while ti < 1 + rules.n_snapshots
            invariant
                self.wf(rules@),
                self.active() is Some,
                rules.n_snapshots <= MAX_SNAPSHOTS,
                ti <= 1 + rules.n_snapshots,
                p == rules@,
                low == self.low@,
                forall|t: int|
                    0 <= t < ti ==> served(p, low, t) || seq > #[trigger] threshold(p.snapshots, t),
            decreases 1 + rules.n_snapshots - ti,
        {
            let th: u64 = rules.threshold_at(ti);
            assert(self.served@[ti as int] == served(p, low, ti as int));
            if !self.served[ti] && seq <= th {
                assert(wanted(p, low, seq));
                return true;
            }
            ti = ti + 1;
        }
        false
    }

    /// Marks every threshold that a version with `seq` satisfies. The
    /// emitted version is the newest at or below each of them (versions
    /// surface newest-first), so it serves all of them at once.
    fn serve(&mut self, rules: &Rules, seq: u64, Ghost(e): Ghost<Rec>)
        requires
            old(self).wf(rules@),
            rules.n_snapshots <= MAX_SNAPSHOTS,
            old(self).active() is Some,
            e.seq == seq,
            emits(rules@, old(self).active()->0, e),
        ensures
            final(self).wf(rules@),
            final(self).active() == Some(key_after(rules@, old(self).active()->0, e)),
    {
        let ghost p = rules@;
        let ghost k0 = self.active()->0;
        let ghost k1 = key_after(p, k0, e);
        let mut ti: usize = 0;
        while ti < 1 + rules.n_snapshots
            invariant
                *self == (KeyTrack { served: self.served, ..*old(self) }),
                rules.n_snapshots <= MAX_SNAPSHOTS,
                ti <= 1 + rules.n_snapshots,
                p == rules@,
                k1 == key_after(p, k0, e),
                emits(p, k0, e),
                e.seq == seq,
                forall|t: int| 0 <= t < ti ==> #[trigger] self.served@[t] == served(p, k1.low, t),
                forall|t: int|
                    ti <= t <= rules.n_snapshots ==> #[trigger] self.served@[t] == served(
                        p,
                        k0.low,
                        t,
                    ),
            decreases 1 + rules.n_snapshots - ti,
        {
            let th: u64 = rules.threshold_at(ti);
            assert(self.served@[ti as int] == served(p, k0.low, ti as int));
            if seq <= th {
                self.served[ti] = true;
            }
            ti = ti + 1;
        }
        proof {
            self.low@ = k1.low;
        }
    }
}

/// Caller-owned scratch driving one compaction job at a time.
///
/// Create it once and hand it to every
/// [`compact_step`](crate::db::Db::compact_step) call; it is reusable
/// across jobs: a finished job leaves it idle, and the next call selects a
/// fresh job when a level is full again. The type parameters must match the
/// [`Db`](crate::db::Db) it drives.
pub struct Compaction<
    const BLOCK: usize,
    const KEY_MAX: usize,
    const VAL_MAX: usize,
    const BLOOM_BYTES: usize,
> {
    /// Whether a job is held.
    pub state: State,
    /// The input tables, `n_inputs` of them.
    pub inputs: [Input<KEY_MAX>; COMPACTION_KMAX],
    /// How many inputs the job has.
    pub n_inputs: usize,
    /// Level of the output table.
    pub target_level: usize,
    /// True when the output level is the bottommost one holding the merged
    /// key range: a tombstone there shadows nothing below and may be
    /// dropped, unless a live snapshot could still observe it.
    pub bottommost: bool,
    /// Live snapshot watermarks at select time, sorted descending. The
    /// merge's per-key keep-set is the newest version (the live view) plus
    /// the newest version at or below each watermark.
    pub snapshots: [u64; MAX_SNAPSHOTS],
    /// How many entries of `snapshots` are live.
    pub n_snapshots: usize,
    /// Oldest live snapshot sequence at select time (`u64::MAX` when no
    /// snapshot is live).
    pub oldest_snapshot: u64,
    /// Lowest sequence that a table outside the job, or the memtable, could
    /// hold for a key in the merged range: the floor below which the job
    /// may drop a tombstone.
    pub outside_min_seq: u64,
    /// TTL purge cutoff for this job: an emitted value with
    /// `expire_at != 0 && expire_at <= purge_before` is converted to a
    /// point tombstone at the same sequence, never silently dropped
    /// (dropping it would resurrect the older version beneath it at
    /// snapshot reads). `0` disables the purge. The caller promises every
    /// future read uses `now >= purge_before`. Sticky across jobs until
    /// changed.
    pub purge_before: u64,
    /// Blocks of the output table's range-tombstone section.
    pub rdel_blocks: u32,
    /// First block of the output table.
    pub out_base: u64,
    /// Slot reserved for the output table.
    pub out_slot: usize,
    /// The generation of the job.
    pub job_gen: u64,
    /// The output table.
    pub writer: TableWriter<BLOCK, BLOOM_BYTES, KEY_MAX>,
    /// Compression scratch for the output table: every sealed data block is
    /// trial-compressed.
    pub compress: CompressScratch<BLOCK>,
    /// Shared physical-read scratch: one block buffer lent to every cursor
    /// fill. The physical bytes are dead once inflated into the cursor's
    /// block.
    pub raw: [u8; BLOCK],
    /// One read cursor per input.
    pub cursors: [Cursor<BLOCK, KEY_MAX, VAL_MAX>; COMPACTION_KMAX],
    /// The key currently being merged.
    pub track: KeyTrack<KEY_MAX>,
}

/// Index of the live cursor on the minimum key (the first of them), or
/// `COMPACTION_KMAX` when every cursor is exhausted. At most eight cursors,
/// so a linear scan is trivially bounded, and unlike a heap it cannot hold
/// stale entries for exhausted cursors.
fn min_key_cursor<const BLOCK: usize, const KEY_MAX: usize, const VAL_MAX: usize>(
    cursors: &[Cursor<BLOCK, KEY_MAX, VAL_MAX>; COMPACTION_KMAX],
    n_inputs: usize,
) -> (r: usize)
    requires
        n_inputs <= COMPACTION_KMAX,
        forall|i: int| 0 <= i < n_inputs ==> (#[trigger] cursors@[i]).wf(),
    ensures
        r < n_inputs || r == COMPACTION_KMAX,
        r == COMPACTION_KMAX ==> forall|j: int|
            0 <= j < n_inputs ==> !(#[trigger] cursors@[j]).is_live(),
        r < COMPACTION_KMAX ==> cursors@[r as int].is_live() && forall|j: int|
            0 <= j < n_inputs && (#[trigger] cursors@[j]).is_live() ==> lex_le(
                cursors@[r as int].head_rec().key,
                cursors@[j].head_rec().key,
            ) && (j < r ==> cursors@[r as int].head_rec().key != cursors@[j].head_rec().key),
{
    let mut best: usize = COMPACTION_KMAX;
    let mut ci: usize = 0;
    while ci < n_inputs
        invariant
            ci <= n_inputs,
            n_inputs <= COMPACTION_KMAX,
            forall|i: int| 0 <= i < n_inputs ==> (#[trigger] cursors@[i]).wf(),
            best < ci || best == COMPACTION_KMAX,
            best == COMPACTION_KMAX ==> forall|j: int|
                0 <= j < ci ==> !(#[trigger] cursors@[j]).is_live(),
            best < COMPACTION_KMAX ==> cursors@[best as int].is_live() && forall|j: int|
                0 <= j < ci && (#[trigger] cursors@[j]).is_live() ==> lex_le(
                    cursors@[best as int].head_rec().key,
                    cursors@[j].head_rec().key,
                ) && (j < best ==> cursors@[best as int].head_rec().key
                    != cursors@[j].head_rec().key),
        decreases n_inputs - ci,
    {
        if cursors[ci].live() {
            if best == COMPACTION_KMAX {
                best = ci;
                proof {
                    lemma_lex_irreflexive(cursors@[ci as int].head_rec().key);
                }
            } else if bytes_lt(cursors[ci].key(), cursors[best].key()) {
                proof {
                    let a = cursors@[ci as int].head_rec().key;
                    let b = cursors@[best as int].head_rec().key;
                    lemma_lex_irreflexive(a);
                    assert forall|j: int|
                        0 <= j < ci + 1 && (#[trigger] cursors@[j]).is_live() implies lex_le(
                        a,
                        cursors@[j].head_rec().key,
                    ) && (j < ci ==> a != cursors@[j].head_rec().key) by {
                        if j < ci {
                            let x = cursors@[j].head_rec().key;
                            lemma_lex_lt_le(a, b, x);
                            lemma_lex_asymmetric(a, x);
                        }
                    }
                }
                best = ci;
            }
        }
        ci = ci + 1;
    }
    best
}

/// Index of the highest-sequence cursor tied on `best`'s key (the first of
/// them). Each cursor sits at its table's version-run start and runs are
/// newest-first, so the head is the newest version not yet processed for
/// this key.
fn head_cursor<const BLOCK: usize, const KEY_MAX: usize, const VAL_MAX: usize>(
    cursors: &[Cursor<BLOCK, KEY_MAX, VAL_MAX>; COMPACTION_KMAX],
    n_inputs: usize,
    best: usize,
) -> (r: usize)
    requires
        n_inputs <= COMPACTION_KMAX,
        best < n_inputs,
        cursors@[best as int].is_live(),
        forall|i: int| 0 <= i < n_inputs ==> (#[trigger] cursors@[i]).wf(),
        forall|j: int|
            0 <= j < best && (#[trigger] cursors@[j]).is_live() ==> cursors@[j].head_rec().key
                != cursors@[best as int].head_rec().key,
    ensures
        r < n_inputs,
        cursors@[r as int].is_live(),
        cursors@[r as int].head_rec().key == cursors@[best as int].head_rec().key,
        forall|j: int|
            0 <= j < n_inputs && (#[trigger] cursors@[j]).is_live() && cursors@[j].head_rec().key
                == cursors@[r as int].head_rec().key ==> cursors@[r as int].head_rec().seq
                >= cursors@[j].head_rec().seq && (j < r ==> cursors@[r as int].head_rec().seq
                > cursors@[j].head_rec().seq),
{
    let mut head: usize = best;
    let mut ci: usize = 0;
    while ci < n_inputs
        invariant
            ci <= n_inputs,
            n_inputs <= COMPACTION_KMAX,
            best < n_inputs,
            head < n_inputs,
            best <= head,
            cursors@[best as int].is_live(),
            forall|i: int| 0 <= i < n_inputs ==> (#[trigger] cursors@[i]).wf(),
            forall|j: int|
                0 <= j < best && (#[trigger] cursors@[j]).is_live() ==> cursors@[j].head_rec().key
                    != cursors@[best as int].head_rec().key,
            head == best || head < ci,
            cursors@[head as int].is_live(),
            cursors@[head as int].head_rec().key == cursors@[best as int].head_rec().key,
            cursors@[head as int].head_rec().seq >= cursors@[best as int].head_rec().seq,
            head > best ==> cursors@[head as int].head_rec().seq
                > cursors@[best as int].head_rec().seq,
            forall|j: int|
                0 <= j < ci && (#[trigger] cursors@[j]).is_live() && cursors@[j].head_rec().key
                    == cursors@[head as int].head_rec().key ==> cursors@[head as int].head_rec().seq
                    >= cursors@[j].head_rec().seq && (j < head
                    ==> cursors@[head as int].head_rec().seq > cursors@[j].head_rec().seq),
        decreases n_inputs - ci,
    {
        if cursors[ci].live() && ci != best {
            if bytes_eq(cursors[ci].key(), cursors[best].key()) && cursors[ci].seq()
                > cursors[head].seq() {
                head = ci;
            }
        }
        ci = ci + 1;
    }
    head
}

/// The jobs of two scratches agree but for the merge's own state.
pub open spec fn same_job<
    const BLOCK: usize,
    const KEY_MAX: usize,
    const VAL_MAX: usize,
    const BLOOM_BYTES: usize,
>(
    a: Compaction<BLOCK, KEY_MAX, VAL_MAX, BLOOM_BYTES>,
    b: Compaction<BLOCK, KEY_MAX, VAL_MAX, BLOOM_BYTES>,
) -> bool {
    &&& a.state == b.state
    &&& a.inputs == b.inputs
    &&& a.n_inputs == b.n_inputs
    &&& a.target_level == b.target_level
    &&& a.bottommost == b.bottommost
    &&& a.snapshots == b.snapshots
    &&& a.n_snapshots == b.n_snapshots
    &&& a.oldest_snapshot == b.oldest_snapshot
    &&& a.outside_min_seq == b.outside_min_seq
    &&& a.purge_before == b.purge_before
    &&& a.rdel_blocks == b.rdel_blocks
    &&& a.out_base == b.out_base
    &&& a.out_slot == b.out_slot
    &&& a.job_gen == b.job_gen
}

impl<
    const BLOCK: usize,
    const KEY_MAX: usize,
    const VAL_MAX: usize,
    const BLOOM_BYTES: usize,
> Default for Compaction<BLOCK, KEY_MAX, VAL_MAX, BLOOM_BYTES> {
    /// Same as [`new`](Self::new).
    fn default() -> (r: Self)
        ensures
            r.wf(),
            r.state == State::Idle,
            r.purge_before == 0,
    {
        Compaction::new()
    }
}

impl<
    const BLOCK: usize,
    const KEY_MAX: usize,
    const VAL_MAX: usize,
    const BLOOM_BYTES: usize,
> Compaction<BLOCK, KEY_MAX, VAL_MAX, BLOOM_BYTES> {
    /// Sizes that a merge can work with.
    pub open spec fn shape_ok() -> bool {
        &&& TableWriter::<BLOCK, BLOOM_BYTES, KEY_MAX>::shape_ok()
        &&& BLOCK <= 0x7_0000
        &&& KEY_MAX <= 0xFFFF
        &&& VAL_MAX <= 0xFFFF
    }

    /// What holds with or without a job.
    pub open spec fn wf(&self) -> bool {
        &&& self.compress.wf()
        &&& self.n_inputs <= COMPACTION_KMAX
        &&& forall|i: int| 0 <= i < COMPACTION_KMAX ==> (#[trigger] self.inputs@[i]).tref.wf()
    }

    /// What holds of a job being merged.
    pub open spec fn job_wf(&self) -> bool {
        &&& self.wf()
        &&& Self::shape_ok()
        &&& self.n_snapshots <= MAX_SNAPSHOTS
        &&& keep_wf(self.keep())
        &&& self.writer.wf()
        &&& forall|i: int| 0 <= i < self.n_inputs ==> (#[trigger] self.cursors@[i]).wf()
        &&& self.track.wf(self.keep())
    }

    /// What the job keeps by.
    pub open spec fn keep(&self) -> KeepV {
        KeepV {
            bottommost: self.bottommost,
            snapshots: self.snapshots@.take(self.n_snapshots as int),
            oldest_snapshot: self.oldest_snapshot,
            outside_min_seq: self.outside_min_seq,
            purge_before: self.purge_before,
        }
    }

    /// What each input has yet to yield.
    pub open spec fn streams(&self, c: Map<u64, Seq<u8>>) -> Seq<StreamV> {
        Seq::new(self.n_inputs as nat, |i: int| self.cursors@[i].rest(c))
    }

    /// What the merge has yet to emit.
    pub open spec fn pending(&self, c: Map<u64, Seq<u8>>) -> Seq<Rec> {
        sifted(self.keep(), self.track.active(), zipped(self.streams(c)).recs)
    }

    /// The output table once the merge is done, or what stops it.
    pub open spec fn goal<E>(&self, c: Map<u64, Seq<u8>>) -> Result<WriterV, Error<E>> {
        push_all::<E>(self.writer@, self.pending(c), BLOCK as int, KEY_MAX)
    }

    /// The output blocks lie apart from the inputs' data blocks.
    pub open spec fn apart(&self) -> bool {
        forall|i: int|
            0 <= i < self.n_inputs ==> blocks_apart(
                (#[trigger] self.cursors@[i]).first() as int,
                self.cursors@[i].blocks() as int,
                self.writer@.base as int,
                self.writer@.limit as int,
            )
    }

    /// Fresh idle scratch.
    #[must_use]
    pub fn new() -> (r: Self)
        ensures
            r.wf(),
            r.state == State::Idle,
            r.purge_before == 0,
    {
        Compaction {
            state: State::Idle,
            inputs: [Input::empty();COMPACTION_KMAX],
            n_inputs: 0,
            target_level: 0,
            bottommost: false,
            snapshots: [0u64;MAX_SNAPSHOTS],
            n_snapshots: 0,
            oldest_snapshot: u64::MAX,
            outside_min_seq: 0,
            purge_before: 0,
            rdel_blocks: 0,
            out_base: 0,
            out_slot: 0,
            job_gen: 0,
            writer: TableWriter::new(0, 0),
            compress: CompressScratch::new(),
            raw: [0u8;BLOCK],
            cursors: [Cursor::empty();COMPACTION_KMAX],
            track: KeyTrack::new(),
        }
    }

    /// Abandons any in-progress job. Partial output blocks were never
    /// claimed or referenced, so they are simply free; the inputs are still
    /// in the manifest and a later select will redo the job.
    ///
    /// `purge_before` is sticky across jobs (it is a caller-owned clock
    /// cutoff, not per-job state).
    pub fn reset(&mut self)
        requires
            old(self).wf(),
        ensures
            final(self).wf(),
            final(self).state == State::Idle,
            final(self).n_inputs == 0,
            final(self).rdel_blocks == 0,
            final(self).purge_before == old(self).purge_before,
    {
        self.state = State::Idle;
        self.n_inputs = 0;
        self.track.stop();
        self.rdel_blocks = 0;
    }

    /// What the job keeps by.
    fn rules(&self) -> (r: Rules)
        ensures
            r@ == self.keep(),
            r.n_snapshots == self.n_snapshots,
    {
        Rules {
            bottommost: self.bottommost,
            snapshots: self.snapshots,
            n_snapshots: self.n_snapshots,
            oldest_snapshot: self.oldest_snapshot,
            outside_min_seq: self.outside_min_seq,
            purge_before: self.purge_before,
        }
    }

    /// Writes the head of cursor `head`, with a value past the purge cutoff
    /// turned into a tombstone at the same sequence.
    fn emit<D: BlockDevice>(&mut self, device: &mut D, head: usize) -> (r: Result<
        PushOutcome,
        Error<D::Error>,
    >)
        requires
            old(self).job_wf(),
            D::BLOCK == BLOCK,
            head < old(self).n_inputs,
            old(self).cursors@[head as int].is_live(),
        ensures
            final(self).wf(),
            same_job(*old(self), *final(self)),
            final(self).cursors == old(self).cursors,
            final(self).track == old(self).track,
            ({
                let e = settled(old(self).keep(), old(self).cursors@[head as int].head_rec());
                let v = old(self).writer@;
                let next = push_next::<D::Error>(v, e, BLOCK as int, KEY_MAX);
                let id = (v.base + v.groups.len()) as u64;
                let c0 = old(device).content();
                let c1 = final(device).content();
                &&& c1 == c0 || (v.may_seal() && c1 == c0.insert(id, c1[id]))
                &&& synced_outside(
                    &*old(device),
                    &*final(device),
                    v.base + v.groups.len(),
                    v.base + v.groups.len() + 1,
                )
                &&& match r {
                    Ok(o) => {
                        &&& final(self).job_wf()
                        &&& next == Ok::<WriterV, Error<D::Error>>(final(self).writer@)
                        &&& o == PushOutcome::Buffered ==> *final(device) == *old(device)
                            && final(self).writer@.groups == v.groups
                        &&& o == PushOutcome::BlockSealed ==> v.may_seal() && is_data_block(
                            c1[id],
                            v.cur,
                            BLOCK as int,
                        ) && c1[id] == data_image(v.cur, true, BLOCK as int)
                            && final(self).writer@.groups == v.groups.push(v.cur)
                    },
                    Err(x) => x is Device || next == Err::<WriterV, Error<D::Error>>(x),
                }
            }),
    {
        let ghost h = self.cursors@[head as int].head_rec();
        let ghost p = self.keep();
        proof {
            self.writer.lemma_entry_bound();
            self.cursors@[head as int].lemma_head(Map::empty());
        }
        let tombstone: bool = self.cursors[head].tombstone();
        let expire_at: u64 = self.cursors[head].expire_at();
        let gone: bool = tombstone || (expire_at != 0 && expire_at <= self.purge_before);
        let val: &[u8] = self.cursors[head].val();
        let keep_len: usize = if gone {
            0
        } else {
            val.len()
        };
        let e = SstEntry {
            key: self.cursors[head].key(),
            val: &val[0..keep_len],
            seq: self.cursors[head].seq(),
            tombstone: gone,
            expire_at: if gone {
                0
            } else {
                expire_at
            },
        };
        proof {
            assert(e@.val =~= settled(p, h).val);
            assert(e@ == settled(p, h));
        }
        self.writer.push(device, e, Some(&mut self.compress))
    }

    /// The cursors' heads are those of the streams.
    proof fn lemma_heads(&self, c: Map<u64, Seq<u8>>)
        requires
            self.n_inputs <= COMPACTION_KMAX,
            forall|i: int| 0 <= i < self.n_inputs ==> (#[trigger] self.cursors@[i]).wf(),
        ensures
            forall|i: int|
                0 <= i < self.n_inputs ==> {
                    &&& (#[trigger] self.streams(c)[i]).recs.len() > 0
                        <==> self.cursors@[i].is_live()
                    &&& self.cursors@[i].is_live() ==> self.streams(c)[i].recs[0]
                        == self.cursors@[i].head_rec()
                },
    {
        assert forall|i: int| 0 <= i < self.n_inputs implies {
            &&& (#[trigger] self.streams(c)[i]).recs.len() > 0 <==> self.cursors@[i].is_live()
            &&& self.cursors@[i].is_live() ==> self.streams(c)[i].recs[0]
                == self.cursors@[i].head_rec()
        } by {
            self.cursors@[i].lemma_head(c);
        }
    }

    /// A device that keeps the inputs keeps what they have yet to yield.
    pub proof fn lemma_same_streams(&self, c0: Map<u64, Seq<u8>>, c1: Map<u64, Seq<u8>>)
        requires
            self.apart(),
            same_outside(
                c0,
                c1,
                self.writer@.base as int,
                self.writer@.base + self.writer@.limit,
            ),
        ensures
            self.streams(c0) == self.streams(c1),
    {
        assert forall|i: int| 0 <= i < self.n_inputs implies self.cursors@[i].rest(c0)
            == #[trigger] self.cursors@[i].rest(c1) by {
            let k = self.cursors@[i];
            assert(blocks_apart(
                k.first() as int,
                k.blocks() as int,
                self.writer@.base as int,
                self.writer@.limit as int,
            ));
            k.lemma_same_rest(c0, c1);
        }
        assert(self.streams(c0) =~= self.streams(c1));
    }

    /// Index of the input whose head surfaces next, or `COMPACTION_KMAX`
    /// when every input is exhausted.
    fn next_input(&self, Ghost(c): Ghost<Map<u64, Seq<u8>>>) -> (r: usize)
        requires
            self.job_wf(),
        ensures
            r == COMPACTION_KMAX ==> drained(self.streams(c)),
            r != COMPACTION_KMAX ==> r < self.n_inputs && is_pick(self.streams(c), r as int)
                && self.cursors@[r as int].is_live() && self.streams(c)[r as int].recs[0]
                == self.cursors@[r as int].head_rec(),
    {
        let best: usize = min_key_cursor(&self.cursors, self.n_inputs);
        proof {
            self.lemma_heads(c);
        }
        if best == COMPACTION_KMAX {
            assert forall|i: int| 0 <= i < self.streams(c).len() implies (#[trigger] self.streams(
                c,
            )[i]).recs.len() == 0 by {
                assert(!self.cursors@[i].is_live());
            }
            return COMPACTION_KMAX;
        }
        let head: usize = head_cursor(&self.cursors, self.n_inputs, best);
        proof {
            let ss = self.streams(c);
            assert forall|j: int| 0 <= j < ss.len() && (#[trigger] ss[j]).recs.len() > 0 implies surfaces(
                ss,
                head as int,
                j,
            ) by {
                assert(self.cursors@[j].is_live());
                let a = self.cursors@[head as int].head_rec();
                let b = self.cursors@[j].head_rec();
                assert(lex_le(a.key, b.key));
                lemma_lex_total(a.key, b.key);
            }
            assert(ss[head as int].recs.len() > 0);
        }
        head
    }

    /// One bounded merge quantum: pushes merged entries into the output
    /// table until one output block seals, or every input is exhausted.
    ///
    /// Each key's versions surface newest-first, one per loop iteration:
    /// the iteration's head (highest sequence among the cursors tied on
    /// the minimum key) is emitted exactly when an unserved threshold (the
    /// live view, then each snapshot, descending) covers it. That emission
    /// then serves every threshold the version satisfies, which is precisely
    /// the keep-set: the newest version plus the newest version at or below
    /// each snapshot. A sealed block may interrupt a key mid-versions; the
    /// per-key state resumes it exactly.
    ///
    /// # Errors
    ///
    /// [`Error::CorruptBlock`] on a torn input block (compaction must never
    /// silently drop entries), [`Error::KeyTooLarge`] /
    /// [`Error::ValueTooLarge`] on an input entry beyond the limits,
    /// [`Error::NoSpace`] when the output outgrows its blocks, or
    /// [`Error::Device`] on I/O failure.
    #[verifier::rlimit(40)]
    pub fn merge_step<D: BlockDevice>(&mut self, device: &mut D) -> (r: Result<
        MergeOutcome,
        Error<D::Error>,
    >)
        requires
            old(self).job_wf(),
            old(self).apart(),
            D::BLOCK == BLOCK,
        ensures
            final(self).wf(),
            same_job(*old(self), *final(self)),
            synced_outside(
                &*old(device),
                &*final(device),
                old(self).writer@.base + old(self).writer@.groups.len(),
                old(self).writer@.base + old(self).writer@.groups.len() + 1,
            ),
            r == Ok::<MergeOutcome, Error<D::Error>>(MergeOutcome::Exhausted) ==> *final(device)
                == *old(device),
            merged_on(*old(self), *final(self), old(device).content(), final(device).content(), r),
    {
        let ghost c0 = device.content();
        let ghost goal = self.goal::<D::Error>(c0);
        let ghost fault = zipped(self.streams(c0)).fault;
        let ghost v0 = self.writer@;
        let ghost p = self.keep();
        let rules: Rules = self.rules();
        loop
            invariant
                D::BLOCK == BLOCK,
                self.job_wf(),
                self.apart(),
                same_job(*old(self), *self),
                p == self.keep(),
                rules@ == p,
                rules.n_snapshots == self.n_snapshots,
                same_windows(*old(self), *self),
                self.writer@.base == v0.base,
                self.writer@.k == v0.k,
                self.writer@.limit == v0.limit,
                self.writer@.groups == v0.groups,
                v0 == old(self).writer@,
                c0 == old(device).content(),
                *device == *old(device),
                self.goal::<D::Error>(c0) == goal,
                goal == old(self).goal::<D::Error>(c0),
                zipped(self.streams(c0)).fault == fault,
                fault == zipped(old(self).streams(c0)).fault,
            decreases left_in(self.streams(device.content())),
        {
            let ghost ss = self.streams(c0);
            let ghost es = zipped(ss).recs;
            let ghost k0 = self.track.active();
            let ghost vb = self.writer@;
            let head: usize = self.next_input(Ghost(c0));
            if head == COMPACTION_KMAX {
                proof {
                    lemma_zip_end(ss);
                    assert(self.pending(c0) =~= Seq::<Rec>::empty());
                }
                self.track.stop();
                return Ok(MergeOutcome::Exhausted);
            }
            let ghost e = self.cursors@[head as int].head_rec();
            let ghost tt = popped(ss, head as int);
            proof {
                lemma_zip_step(ss, head as int);
                lemma_left_popped(ss, head as int);
                assert(es[0] == e);
                assert(es.skip(1) =~= (if ss[head as int].recs.len() == 1
                    && ss[head as int].fault is Some {
                    Seq::empty()
                } else {
                    zipped(tt).recs
                }));
            }
            self.track.look_at(&rules, &self.cursors[head]);
            let ghost k = self.track.active()->0;
            assert(k == key_at(p, k0, e));
            let seq: u64 = self.cursors[head].seq();
            let emit: bool = !self.track.dropping() && self.track.wants(&rules, seq);
            let ghost rest = sifted(p, Some(key_after(p, k, e)), es.skip(1));
            assert(emit == emits(p, k, e));
            let mut sealed: bool = false;
            if emit {
                let ghost v = self.writer@;
                let ghost out = sifted(p, k0, es);
                proof {
                    assert(out =~= seq![settled(p, e)] + rest);
                    assert(out.skip(1) =~= rest);
                }
                let outcome: PushOutcome = match self.emit(device, head) {
                    Ok(o) => o,
                    Err(x) => {
                        return Err(x);
                    },
                };
                sealed = outcome == PushOutcome::BlockSealed;
                self.track.serve(&rules, seq, Ghost(e));
                proof {
                    self.lemma_same_streams(c0, device.content());
                    assert(goal == push_all::<D::Error>(
                        self.writer@,
                        rest,
                        BLOCK as int,
                        KEY_MAX,
                    ));
                }
            }
            let ghost c1 = device.content();
            let ghost w1 = self.writer@;
            assert(self.streams(c1) == ss);
            assert(goal == push_all::<D::Error>(w1, rest, BLOCK as int, KEY_MAX));
            assert(self.cursors@[head as int].rest(c1) == ss[head as int]);
            match self.cursors[head].advance(&*device, &mut self.raw) {
                Ok(_) => {},
                Err(x) => {
                    return Err(x);
                },
            }
            proof {
                assert(self.streams(c1) =~= tt);
                let s = self.cursors@[head as int];
                s.lemma_head(c1);
            }
            if sealed {
                proof {
                    assert(zipped(self.streams(c1)).fault == fault);
                    assert(self.goal::<D::Error>(c1) == goal);
                    lemma_sealed_step(v0, vb, w1, c0, c1, BLOCK as int);
                }
                return Ok(MergeOutcome::More);
            }
        }
    }
}

/// A sealed block keeps what was so of the blocks before it.
proof fn lemma_sealed_step(
    v0: WriterV,
    v: WriterV,
    w: WriterV,
    c0: Map<u64, Seq<u8>>,
    c1: Map<u64, Seq<u8>>,
    block: int,
)
    requires
        v0.base == v.base,
        v0.groups == v.groups,
        v.may_seal(),
        w.base == v.base,
        w.groups == v.groups.push(v.cur),
        ({
            let id = (v.base + v.groups.len()) as u64;
            &&& c1 == c0 || c1 == c0.insert(id, c1[id])
            &&& is_data_block(c1[id], v.cur, block)
            &&& c1[id] == data_image(v.cur, true, block)
        }),
    ensures
        v0.on(c0, block) ==> w.on(c1, block),
        v0.imaged(c0, true, block) ==> w.imaged(c1, true, block),
{
    assert forall|b: int| 0 <= b < w.groups.len() && v0.on(c0, block) implies is_data_block(
        c1[(w.base + b) as u64],
        #[trigger] w.groups[b],
        block,
    ) by {
        if b < v0.groups.len() {
            assert(is_data_block(c0[(v0.base + b) as u64], v0.groups[b], block));
        }
    }
    assert forall|b: int| 0 <= b < w.groups.len() && v0.imaged(c0, true, block) implies c1[(w.base
        + b) as u64] == data_image(#[trigger] w.groups[b], true, block) by {
        if b < v0.groups.len() {
            assert(c0[(v0.base + b) as u64] == data_image(v0.groups[b], true, block));
        }
    }
}

/// Each cursor still reads the same blocks.
pub open spec fn same_windows<
    const BLOCK: usize,
    const KEY_MAX: usize,
    const VAL_MAX: usize,
    const BLOOM_BYTES: usize,
>(
    a: Compaction<BLOCK, KEY_MAX, VAL_MAX, BLOOM_BYTES>,
    b: Compaction<BLOCK, KEY_MAX, VAL_MAX, BLOOM_BYTES>,
) -> bool {
    forall|i: int|
        0 <= i < a.n_inputs ==> (#[trigger] b.cursors@[i]).first() == a.cursors@[i].first()
            && b.cursors@[i].blocks() == a.cursors@[i].blocks()
}

/// What a merge step does: it brings the output closer to the same goal,
/// one sealed block at a time, or says what keeps it from the goal.
pub open spec fn merged_on<
    E,
    const BLOCK: usize,
    const KEY_MAX: usize,
    const VAL_MAX: usize,
    const BLOOM_BYTES: usize,
>(
    a: Compaction<BLOCK, KEY_MAX, VAL_MAX, BLOOM_BYTES>,
    b: Compaction<BLOCK, KEY_MAX, VAL_MAX, BLOOM_BYTES>,
    c0: Map<u64, Seq<u8>>,
    c1: Map<u64, Seq<u8>>,
    r: Result<MergeOutcome, Error<E>>,
) -> bool {
    let goal = a.goal::<E>(c0);
    let fault = zipped(a.streams(c0)).fault;
    let at = a.writer@.base + a.writer@.groups.len();
    &&& same_outside(c0, c1, at, at + 1)
    &&& c1 != c0 ==> a.writer@.may_seal()
    &&& match r {
        Ok(MergeOutcome::More) => {
            &&& b.job_wf()
            &&& b.apart()
            &&& same_windows(a, b)
            &&& b.goal::<E>(c1) == goal
            &&& zipped(b.streams(c1)).fault == fault
            &&& b.writer@.base == a.writer@.base
            &&& b.writer@.k == a.writer@.k
            &&& b.writer@.limit == a.writer@.limit
            &&& a.writer@.may_seal()
            &&& b.writer@.groups.len() == a.writer@.groups.len() + 1
            &&& a.writer@.on(c0, BLOCK as int) ==> b.writer@.on(c1, BLOCK as int)
            &&& a.writer@.imaged(c0, true, BLOCK as int) ==> b.writer@.imaged(
                c1,
                true,
                BLOCK as int,
            )
        },
        Ok(MergeOutcome::Exhausted) => {
            &&& b.job_wf()
            &&& c1 == c0
            &&& goal == Ok::<WriterV, Error<E>>(b.writer@)
            &&& fault is None
            &&& b.writer@.groups == a.writer@.groups
        },
        Err(e) => {
            ||| e is Device
            ||| goal == Err::<WriterV, Error<E>>(e)
            ||| goal is Ok && (fault matches Some(f) && e == fault_error::<E>(f, KEY_MAX, VAL_MAX))
        },
    }
}

/// Two block ranges have no block in common.
pub open spec fn blocks_apart(a: int, n: int, b: int, m: int) -> bool {
    a + n <= b || b + m <= a
}

} // verus!

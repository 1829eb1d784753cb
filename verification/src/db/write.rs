//! The write path: every mutation is durable in the WAL before it lands in
//! the memtable.

use vstd::prelude::*;

use super::{seqs_given, Db};
use crate::batch::{op_queued, BatchOpV, WriteBatch};
use crate::bytes::{bytes_lt, lex_le};
use crate::compact::merge::MAX_SNAPSHOTS;
use crate::device::BlockDevice;
use crate::error::Error;
use super::place::lemma_tables_kept;
use crate::memtable::{
    arena_used, end_payload, key_sorted, law_with_rec_keeps_order, lemma_arena_insert, lemma_lower,
    lemma_top_bound, lemma_top_insert, lower, room_for, runs_newest_first, top_seq, value_payload,
    with_rec, Rec,
};
use crate::wal::{
    entry_of, law_record_roundtrip, log_bytes, padded, rec_bytes, rec_len, rec_valid, Op, WalRec,
    WAL_RECORD_OVERHEAD,
};

verus! {

/// One single-op write.
#[derive(Debug, Clone, Copy)]
enum Mutation<'a> {
    Put { key: &'a [u8], val: &'a [u8] },
    PutTtl { key: &'a [u8], val: &'a [u8], expire_at: u64 },
    Delete { key: &'a [u8] },
    RangeDelete { start: &'a [u8], end: &'a [u8] },
}

/// WAL staging state, taken before a mutation stages its records. Lets a
/// failed commit be undone: staged-but-undurable records are truncated
/// away, and sequence numbers are consumed only when a block actually
/// landed.
#[derive(Debug, Clone, Copy)]
struct StageMark {
    stage_len: usize,
    next_block: u64,
}

/// Why a write is refused before anything is written.
pub open spec fn write_check<E>(
    mem: Seq<Rec>,
    rec: WalRec,
    cap: usize,
    arena: usize,
    key_max: usize,
    val_max: usize,
) -> Result<(), Error<E>> {
    room_for::<E>(
        mem,
        cap,
        arena,
        rec.key.len(),
        key_max,
        if rec.op == Op::RangeDelete {
            end_payload::<E>(rec.val.len(), key_max)
        } else {
            value_payload::<E>(rec.val.len(), rec.op == Op::Delete, val_max)
        },
    )
}

impl<
    D: BlockDevice,
    const BLOCK: usize,
    const KEY_MAX: usize,
    const VAL_MAX: usize,
    const CAP: usize,
    const ARENA: usize,
    const LEVELS: usize,
    const TABLES: usize,
    const BLOOM_BYTES: usize,
    const CACHE: usize,
> Db<D, BLOCK, KEY_MAX, VAL_MAX, CAP, ARENA, LEVELS, TABLES, BLOOM_BYTES, CACHE> {
    /// Takes a snapshot: registers the current sequence watermark and
    /// returns it. Reads pinned to the watermark see exactly the mutations
    /// with `seq <= watermark`, however much is written afterwards. While
    /// the snapshot is live, compaction retains any tombstone a read at the
    /// watermark could observe. Release with
    /// [`release_snapshot`](Db::release_snapshot); snapshots are in-memory
    /// only and do not survive `open()`.
    ///
    /// # Errors
    ///
    /// [`Error::NotOpen`] on a closed handle, or [`Error::SnapshotLimit`]
    /// when eight snapshots (the fixed limit) are already live.
    pub fn snapshot(&mut self) -> (r: Result<u64, Error<D::Error>>)
        requires
            old(self).wf(),
        ensures
            final(self).wf(),
            if !old(self).is_opened() {
                r == Err::<u64, Error<D::Error>>(Error::NotOpen) && *final(self) == *old(self)
            } else if old(self).snaps().len() >= MAX_SNAPSHOTS {
                r == Err::<u64, Error<D::Error>>(Error::SnapshotLimit) && *final(self) == *old(self)
            } else {
                &&& r == Ok::<u64, Error<D::Error>>(old(self).issued_seq())
                &&& final(self).snaps() == old(self).snaps().push(old(self).issued_seq())
                &&& final(self).but_snaps(old(self))
            },
    {
        if !self.opened {
            return Err(Error::NotOpen);
        }
        if self.n_snapshots >= MAX_SNAPSHOTS {
            return Err(Error::SnapshotLimit);
        }
        let snap: u64 = self.next_seq;
        self.snapshots[self.n_snapshots] = snap;
        self.n_snapshots = self.n_snapshots + 1;
        assert(self.snaps() =~= old(self).snaps().push(snap));
        Ok(snap)
    }

    /// Nothing but the snapshots differs.
    pub open spec fn but_snaps(&self, o: &Self) -> bool {
        &&& self.content() == o.content()
        &&& self.kept() == o.kept()
        &&& self.mem() == o.mem()
        &&& self.man() == o.man()
        &&& self.issued_seq() == o.issued_seq()
        &&& self.is_opened() == o.is_opened()
        &&& self.config() == o.config()
        &&& self.slot_map() == o.slot_map()
        &&& self.wal_next() == o.wal_next()
        &&& self.job() == o.job()
        &&& self.job_slots() == o.job_slots()
        &&& self.images() == o.images()
    }

    /// Releases a snapshot taken by [`snapshot`](Db::snapshot), freeing its
    /// slot so compaction may drop tombstones again. Releasing an unknown
    /// watermark is a no-op.
    pub fn release_snapshot(&mut self, snap: u64)
        requires
            old(self).wf(),
        ensures
            final(self).wf(),
            final(self).but_snaps(old(self)),
            ({
                let p = old(self).snaps().index_of_first(snap);
                match p {
                    Some(i) => final(self).snaps() == old(self).snaps().update(
                        i,
                        old(self).snaps().last(),
                    ).drop_last(),
                    None => final(self).snaps() == old(self).snaps(),
                }
            }),
    {
        let ghost s = self.snaps();
        let mut i: usize = 0;
        while i < self.n_snapshots
            invariant
                *self == *old(self),
                self.wf(),
                s == self.snaps(),
                i <= self.n_snapshots,
                self.n_snapshots <= MAX_SNAPSHOTS,
                forall|j: int| 0 <= j < i ==> #[trigger] s[j] != snap,
            decreases self.n_snapshots - i,
        {
            if self.snapshots[i] == snap {
                self.n_snapshots = self.n_snapshots - 1;
                self.snapshots[i] = self.snapshots[self.n_snapshots];
                proof {
                    s.index_of_first_ensures(snap);
                    let p = s.index_of_first(snap)->0;
                    assert(s[i as int] == snap);
                    assert(p == i);
                    assert(self.snaps() =~= s.update(i as int, s.last()).drop_last());
                }
                return;
            }
            assert(s[i as int] != snap);
            i = i + 1;
        }
        proof {
            s.index_of_first_ensures(snap);
        }
    }

    /// Oldest live snapshot watermark, or `u64::MAX` when none is live.
    /// Compaction captures this at select time as the tombstone-drop floor.
    pub fn oldest_snapshot_seq(&self) -> (r: u64)
        requires
            self.wf(),
        ensures
            forall|i: int| 0 <= i < self.snaps().len() ==> r <= #[trigger] self.snaps()[i],
            self.snaps().len() == 0 ==> r == u64::MAX,
            self.snaps().len() > 0 ==> self.snaps().contains(r),
    {
        let ghost s = self.snaps();
        let mut min: u64 = u64::MAX;
        let mut i: usize = 0;
        while i < self.n_snapshots
            invariant
                self.wf(),
                s == self.snaps(),
                i <= self.n_snapshots,
                self.n_snapshots <= MAX_SNAPSHOTS,
                forall|j: int| 0 <= j < i ==> min <= #[trigger] s[j],
                i == 0 ==> min == u64::MAX,
                i > 0 ==> s.contains(min),
            decreases self.n_snapshots - i,
        {
            assert(s[i as int] == self.snapshots@[i as int]);
            if self.snapshots[i] < min || i == 0 {
                min = self.snapshots[i];
                assert(s[i as int] == min);
            }
            i = i + 1;
        }
        min
    }

    /// What a single write does.
    pub open spec fn wrote(
        a: &Self,
        b: &Self,
        rec0: WalRec,
        r: Result<u64, Error<D::Error>>,
    ) -> bool {
        let rec = WalRec { seq: (a.issued_seq() + 1) as u64, ..rec0 };
        let refused = |e: Error<D::Error>|
            r == Err::<u64, Error<D::Error>>(e) && b.same_state(a) && b.images() == a.images();
        if !a.is_opened() {
            refused(Error::NotOpen)
        } else {
            match write_check::<D::Error>(a.mem(), rec0, CAP, ARENA, KEY_MAX, VAL_MAX) {
                Err(e) => refused(e),
                Ok(()) => if a.issued_seq() == u64::MAX {
                    refused(Error::CounterExhausted)
                } else if rec_len(rec) > BLOCK {
                    refused(Error::NoSpace)
                } else if a.wal_next() >= a.config().wal_end {
                    refused(Error::WalFull)
                } else {
                    &&& b.man() == a.man()
                    &&& b.snaps() == a.snaps()
                    &&& b.is_opened() == a.is_opened()
                    &&& b.config() == a.config()
                    &&& b.slot_map() == a.slot_map()
                    &&& b.job() == a.job()
                    &&& b.job_slots() == a.job_slots()
                    &&& b.images() == a.images()
                    &&& match r {
                        Ok(seq) => {
                            &&& seq == rec.seq
                            &&& b.mem() == with_rec(a.mem(), entry_of(rec))
                            &&& b.issued_seq() == seq
                            &&& b.wal_next() == a.wal_next() + 1
                            &&& b.content() == a.content().insert(
                                a.wal_next(),
                                padded(rec_bytes(rec), BLOCK as nat),
                            )
                            &&& b.kept() == b.content()
                        },
                        Err(e) => {
                            &&& e is Device
                            &&& b.mem() == a.mem()
                            &&& b.content() == a.content().insert(
                                a.wal_next(),
                                b.content()[a.wal_next()],
                            ) || b.content() == a.content()
                            &&& (b.wal_next() == a.wal_next() && b.issued_seq() == a.issued_seq())
                                || (b.wal_next() == a.wal_next() + 1 && b.issued_seq() == rec.seq)
                        },
                    }
                },
            }
        }
    }

    /// Captures the WAL staging state before a mutation, for rollback.
    fn stage_mark(&self) -> (r: StageMark)
        requires
            self.wal.wf(),
        ensures
            r.stage_len == self.wal.staged().len(),
            r.next_block == self.wal.next(),
    {
        StageMark { stage_len: self.wal.staged_bytes(), next_block: self.wal.next_block() }
    }

    /// Undoes a failed commit. If no block landed (`next_block`
    /// unchanged), the staged records never became durable and are
    /// truncated away. If a block landed but the device flush failed (the
    /// device lied, indistinguishable from a crash at that instant), the
    /// records may replay on recovery, so `seqs` sequence numbers are
    /// consumed now and never reused.
    fn rollback_commit(&mut self, mark: StageMark, seqs: u64) -> (r: Result<(), Error<D::Error>>)
        requires
            old(self).wal.wf(),
            old(self).wal.next() == mark.next_block ==> mark.stage_len
                <= old(self).wal.staged().len(),
            old(self).next_seq + seqs <= u64::MAX,
        ensures
            r is Ok,
            *final(self) == (Db { wal: final(self).wal, next_seq: final(self).next_seq, ..*old(self) }),
            final(self).wal.wf(),
            final(self).wal.dev() == old(self).wal.dev(),
            final(self).wal.same_region(&old(self).wal),
            final(self).wal.next() == old(self).wal.next(),
            if old(self).wal.next() == mark.next_block {
                &&& final(self).wal.staged() == old(self).wal.staged().take(mark.stage_len as int)
                &&& final(self).next_seq == old(self).next_seq
            } else {
                &&& final(self).wal.staged() == old(self).wal.staged()
                &&& final(self).next_seq == old(self).next_seq + seqs
            },
    {
        if self.wal.next_block() == mark.next_block {
            self.wal.truncate_stage(mark.stage_len);
        } else {
            self.next_seq = match self.next_seq.checked_add(seqs) {
                None => {
                    return Err(Error::CounterExhausted);
                },
                Some(n) => n,
            };
        }
        Ok(())
    }

    /// The single-op write path shared by [`put`](Db::put),
    /// [`delete`](Db::delete), [`delete_range`](Db::delete_range) and
    /// [`put_with_ttl`](Db::put_with_ttl): validate against the memtable,
    /// append one WAL record, commit it, then apply it to the memtable.
    /// A failed append or commit rolls the WAL stage back, so a rejected
    /// write leaves no trace and consumes no sequence number unless its
    /// block may already be durable.
    fn commit_mutation(&mut self, m: Mutation<'_>) -> (r: Result<u64, Error<D::Error>>)
        requires
            old(self).wf(),
        ensures
            final(self).wf(),
            Self::wrote(old(self), final(self), m.rec(), r),
    {
        match self.ensure_open() {
            Ok(()) => {},
            Err(e) => {
                return Err(e);
            },
        }
        let ghost rec0 = m.rec();
        let empty: [u8; 0] = [];
        assert(empty@ =~= Seq::<u8>::empty());
        let checked: Result<(), Error<D::Error>> = match m {
            Mutation::Put { key, val } => self.table.check_insert::<D::Error>(key, val, false),
            Mutation::PutTtl { key, val, .. } => self.table.check_insert::<D::Error>(
                key,
                val,
                false,
            ),
            Mutation::Delete { key } => self.table.check_insert::<D::Error>(key, &empty, true),
            Mutation::RangeDelete { start, end } => self.table.check_insert_range_del::<D::Error>(
                start,
                end,
            ),
        };
        match checked {
            Ok(()) => {},
            Err(e) => {
                return Err(e);
            },
        }
        let seq: u64 = match self.next_seq.checked_add(1) {
            None => {
                return Err(Error::CounterExhausted);
            },
            Some(s) => s,
        };
        let ghost rec = WalRec { seq, ..rec0 };
        let mark: StageMark = self.stage_mark();
        let ghost wal0 = self.wal;
        let appended: Result<(), Error<D::Error>> = match m {
            Mutation::Put { key, val } => self.wal.append(seq, Op::Put, key, val),
            Mutation::PutTtl { key, val, expire_at } => self.wal.append_ttl(
                seq,
                key,
                val,
                expire_at,
            ),
            Mutation::Delete { key } => self.wal.append(seq, Op::Delete, key, &empty),
            Mutation::RangeDelete { start, end } => self.wal.append(
                seq,
                Op::RangeDelete,
                start,
                end,
            ),
        };
        proof {
            assert(wal0.staged() =~= Seq::<u8>::empty());
            assert(wal0.staged() + rec_bytes(rec) =~= rec_bytes(rec));
        }
        match appended {
            Ok(()) => {},
            Err(e) => {
                match self.rollback_commit(mark, 0) {
                    Ok(()) => {},
                    Err(x) => {
                        return Err(x);
                    },
                }
                proof {
                    Self::lemma_open_kept(old(self), self);
                }
                return Err(e);
            },
        }
        let ghost wal1 = self.wal;
        assert(wal1.staged() == rec_bytes(rec));
        proof {
            crate::wal::law_record_roundtrip(rec, Seq::empty());
        }
        match self.wal.commit() {
            Ok(()) => {},
            Err(e) => {
                let landed: bool = self.wal.next_block() != mark.next_block;
                match self.rollback_commit(
                    mark,
                    if landed {
                        1
                    } else {
                        0
                    },
                ) {
                    Ok(()) => {},
                    Err(x) => {
                        return Err(x);
                    },
                }
                proof {
                    Self::lemma_open_kept(old(self), self);
                }
                // Out of WAL blocks: the caller flushes, then retries.
                return match e {
                    Error::NoSpace => Err(Error::WalFull),
                    other => Err(other),
                };
            },
        }
        self.next_seq = seq;
        // The memtable is unchanged since the check above, so the insert
        // cannot fail.
        let inserted: Result<(), Error<D::Error>> = match m {
            Mutation::Put { key, val } => self.table.insert(key, val, seq, false),
            Mutation::PutTtl { key, val, expire_at } => self.table.insert_ttl::<D::Error>(
                key,
                val,
                seq,
                expire_at,
            ),
            Mutation::Delete { key } => self.table.insert(key, &empty, seq, true),
            Mutation::RangeDelete { start, end } => self.table.insert_range_del::<D::Error>(
                start,
                end,
                seq,
            ),
        };
        proof {
            let e = entry_of(rec);
            old(self).table.lemma_wf();
            lemma_lower(old(self).mem(), e.key);
            lemma_top_insert(old(self).mem(), lower(old(self).mem(), e.key), e);
            Self::lemma_open_kept(old(self), self);
        }
        match inserted {
            Ok(()) => Ok(seq),
            Err(e) => Err(e),
        }
    }

    /// A write keeps the database sound.
    pub proof fn lemma_wrote_sound(
        a: &Self,
        b: &Self,
        rec0: WalRec,
        r: Result<u64, Error<D::Error>>,
    )
        requires
            a.wf(),
            a.sound(),
            Self::wrote(a, b, rec0, r),
        ensures
            b.sound(),
    {
        reveal(Db::tidy);
        a.lemma_wf();
        let seq = (a.issued_seq() + 1) as u64;
        let e = entry_of(WalRec { seq, ..rec0 });
        if r is Ok {
            Self::lemma_mem_order(a, e);
        }
        if b.content() != a.content() {
            let w = a.wal_next();
            Self::lemma_wal_apart(a);
            lemma_tables_kept(
                a.slot_map(),
                a.images(),
                a.content(),
                b.content(),
                a.man().levels,
                Self::dims(),
                w as int,
                w + 1,
            );
        }
    }

    /// The memtable stays newest-first under a record with a fresh sequence.
    proof fn lemma_mem_order(a: &Self, e: Rec)
        requires
            a.wf(),
            a.is_opened(),
            runs_newest_first(a.mem()),
            seqs_given(a.mem()),
            e.seq > a.issued_seq(),
        ensures
            runs_newest_first(with_rec(a.mem(), e)),
            seqs_given(with_rec(a.mem(), e)),
    {
        a.table.lemma_wf();
        assert forall|i: int| 0 <= i < a.mem().len() && #[trigger] a.mem()[i].key == e.key implies a.mem()[i].seq
            < e.seq by {
            lemma_top_bound(a.mem(), i);
        }
        law_with_rec_keeps_order(a.mem(), e);
        lemma_seqs_with(a.mem(), e);
    }

    /// The next WAL block lies apart from the tables.
    proof fn lemma_wal_apart(a: &Self)
        requires
            a.wf(),
            a.is_opened(),
            a.config().wal_start <= a.wal_next() < a.config().wal_end,
        ensures
            a.wal_next() + 1 <= a.slot_map().base_of(0) || a.slot_map().base_of(
                a.slot_map().slot_count() as int,
            ) <= a.wal_next(),
    {
        a.lemma_wf();
    }

    /// Stores `key` → `val`, durable before it returns. Returns the sequence
    /// number assigned to the mutation.
    ///
    /// # Errors
    ///
    /// [`Error::NotOpen`], [`Error::EmptyKey`], [`Error::KeyTooLarge`],
    /// [`Error::ValueTooLarge`], [`Error::TableFull`] or
    /// [`Error::ArenaFull`] (flush, then retry), [`Error::WalFull`] (flush,
    /// then retry), [`Error::CounterExhausted`], or [`Error::Device`].
    pub fn put(&mut self, key: &[u8], val: &[u8]) -> (r: Result<u64, Error<D::Error>>)
        requires
            old(self).wf(),
        ensures
            final(self).wf(),
            Self::wrote(old(self), final(self), put_rec(key@, val@), r),
            old(self).sound() ==> final(self).sound(),
    {
        let r = self.commit_mutation(Mutation::Put { key, val });
        proof {
            if old(self).sound() {
                Self::lemma_wrote_sound(old(self), self, put_rec(key@, val@), r);
            }
        }
        r
    }

    /// Deletes `key` via a tombstone, durable before it returns. Returns the
    /// sequence number assigned to the mutation.
    ///
    /// # Errors
    ///
    /// Same as [`put`](Db::put).
    pub fn delete(&mut self, key: &[u8]) -> (r: Result<u64, Error<D::Error>>)
        requires
            old(self).wf(),
        ensures
            final(self).wf(),
            Self::wrote(old(self), final(self), delete_rec(key@), r),
            old(self).sound() ==> final(self).sound(),
    {
        let r = self.commit_mutation(Mutation::Delete { key });
        proof {
            if old(self).sound() {
                Self::lemma_wrote_sound(old(self), self, delete_rec(key@), r);
            }
        }
        r
    }

    /// Deletes every key in `[start, end)` via one range tombstone, durable
    /// before it returns. An empty or inverted range (`start >= end`) is a
    /// no-op: it consumes no sequence number, writes no WAL record, and
    /// returns the current sequence number. Returns the sequence number
    /// assigned to the tombstone.
    ///
    /// # Errors
    ///
    /// Same as [`put`](Db::put).
    pub fn delete_range(&mut self, start: &[u8], end: &[u8]) -> (r: Result<u64, Error<D::Error>>)
        requires
            old(self).wf(),
        ensures
            final(self).wf(),
            if old(self).is_opened() && lex_le(end@, start@) {
                &&& r == Ok::<u64, Error<D::Error>>(old(self).issued_seq())
                &&& *final(self) == *old(self)
            } else {
                Self::wrote(old(self), final(self), range_delete_rec(start@, end@), r)
            },
            old(self).sound() ==> final(self).sound(),
    {
        match self.ensure_open() {
            Ok(()) => {},
            Err(e) => {
                return Err(e);
            },
        }
        if !bytes_lt(start, end) {
            return Ok(self.next_seq);
        }
        let r = self.commit_mutation(Mutation::RangeDelete { start, end });
        proof {
            if old(self).sound() {
                Self::lemma_wrote_sound(old(self), self, range_delete_rec(start@, end@), r);
            }
        }
        r
    }

    /// Puts `key`/`val` with an absolute expiry tick, durable before it
    /// returns. The database owns no clock: `expire_at` is caller-defined,
    /// and timed reads ([`get_at_with_time`](Db::get_at_with_time)) suppress
    /// the value once `expire_at <= now`. `expire_at == 0` means no
    /// expiry and behaves exactly like [`put`](Db::put). Returns the
    /// sequence number assigned to the mutation.
    ///
    /// # Errors
    ///
    /// Same as [`put`](Db::put), and [`Error::NoSpace`] when the record with
    /// its expiry exceeds a WAL block.
    pub fn put_with_ttl(&mut self, key: &[u8], val: &[u8], expire_at: u64) -> (r: Result<
        u64,
        Error<D::Error>,
    >)
        requires
            old(self).wf(),
        ensures
            final(self).wf(),
            Self::wrote(old(self), final(self), ttl_rec(key@, val@, expire_at), r),
            old(self).sound() ==> final(self).sound(),
    {
        let r = self.commit_mutation(Mutation::PutTtl { key, val, expire_at });
        proof {
            if old(self).sound() {
                Self::lemma_wrote_sound(old(self), self, ttl_rec(key@, val@, expire_at), r);
            }
        }
        r
    }

    /// What a batch write does.
    pub open spec fn wrote_batch(
        a: &Self,
        b: &Self,
        ops: Seq<BatchOpV>,
        r: Result<u64, Error<D::Error>>,
    ) -> bool {
        let n = ops.len();
        let base = a.issued_seq() + 1;
        let rs = batch_recs(ops, base as u64);
        let refused = |e: Error<D::Error>|
            r == Err::<u64, Error<D::Error>>(e) && b.same_state(a) && b.images() == a.images();
        if !a.is_opened() {
            refused(Error::NotOpen)
        } else if n == 0 {
            r == Ok::<u64, Error<D::Error>>(a.issued_seq()) && *b == *a
        } else if batch_wal(ops) > usize::MAX {
            ||| refused(Error::ArenaFull)
            ||| refused(Error::BatchTooLarge { bytes: usize::MAX, max: BLOCK })
        } else if batch_wal(ops) > BLOCK {
            refused(Error::BatchTooLarge { bytes: batch_wal(ops) as usize, max: BLOCK })
        } else if a.mem().len() + n > CAP {
            refused(Error::TableFull)
        } else if arena_used(a.mem()) + batch_arena(ops) > ARENA {
            refused(Error::ArenaFull)
        } else if base + n - 1 > u64::MAX {
            refused(Error::CounterExhausted)
        } else if a.wal_next() >= a.config().wal_end {
            refused(Error::WalFull)
        } else {
            &&& b.man() == a.man()
            &&& b.snaps() == a.snaps()
            &&& b.is_opened() == a.is_opened()
            &&& b.config() == a.config()
            &&& b.slot_map() == a.slot_map()
            &&& b.job() == a.job()
            &&& b.job_slots() == a.job_slots()
            &&& b.images() == a.images()
            &&& match r {
                Ok(first) => {
                    &&& first == base
                    &&& b.mem() == applied(a.mem(), rs)
                    &&& b.issued_seq() == base + n - 1
                    &&& b.wal_next() == a.wal_next() + 1
                    &&& b.content() == a.content().insert(
                        a.wal_next(),
                        padded(log_bytes(rs), BLOCK as nat),
                    )
                    &&& b.kept() == b.content()
                },
                Err(e) => {
                    &&& e is Device
                    &&& b.mem() == a.mem()
                    &&& b.content() == a.content().insert(a.wal_next(), b.content()[a.wal_next()])
                        || b.content() == a.content()
                    &&& (b.wal_next() == a.wal_next() && b.issued_seq() == a.issued_seq()) || (
                    b.wal_next() == a.wal_next() + 1 && b.issued_seq() == base + n - 1)
                },
            }
        }
    }

    /// Applies every op in `batch` atomically: all become durable and
    /// visible together, or none does. Returns the base sequence number;
    /// op `i` (in queue order) takes `base + i`.
    ///
    /// Atomicity rides on a single WAL commit: the batch is staged into
    /// the WAL's RAM buffer and made durable by one block write. Across a
    /// power loss that is all-or-nothing where the block lands whole, or
    /// none of its records reads back; a replay takes the records in front
    /// of a tear inside the block. A batch whose
    /// encoded size exceeds one block cannot commit atomically and is
    /// rejected with [`Error::BatchTooLarge`], never silently split.
    /// An empty batch is a no-op returning the current sequence number.
    ///
    /// This is also **group commit**: every single-op write (`put`,
    /// `delete`, …) costs one WAL block write, one sector erase on NOR
    /// flash, while a batch pays that once for all its ops.
    ///
    /// # Errors
    ///
    /// [`Error::NotOpen`], [`Error::BatchTooLarge`], [`Error::TableFull`],
    /// [`Error::ArenaFull`], [`Error::WalFull`],
    /// [`Error::CounterExhausted`], or [`Error::Device`]. A rejected batch
    /// leaves no trace: no WAL records, no staged bytes, no consumed
    /// sequence numbers.
    pub fn write<const OPS: usize>(&mut self, batch: &WriteBatch<KEY_MAX, VAL_MAX, OPS>) -> (r:
        Result<u64, Error<D::Error>>)
        requires
            old(self).wf(),
            batch.wf(),
        ensures
            final(self).wf(),
            Self::wrote_batch(old(self), final(self), batch@, r),
            old(self).sound() ==> final(self).sound(),
    {
        match self.ensure_open() {
            Ok(()) => {},
            Err(e) => {
                return Err(e);
            },
        }
        let ghost ops = batch@;
        let n: usize = batch.len();
        if n == 0 {
            return Ok(self.next_seq);
        }
        // Total capacity for the whole batch, up front: sizes were
        // validated when the batch was built.
        let (need_arena, need_wal): (usize, usize) = match batch_need::<
            D::Error,
            BLOCK,
            KEY_MAX,
            VAL_MAX,
            OPS,
        >(batch) {
            Ok(p) => p,
            Err(e) => {
                return Err(e);
            },
        };
        if need_wal > BLOCK {
            return Err(Error::BatchTooLarge { bytes: need_wal, max: BLOCK });
        }
        proof {
            self.table.lemma_wf();
            lemma_batch_sums(ops, n as int);
            batch.lemma_wf();
        }
        if n > CAP - self.table.len() {
            return Err(Error::TableFull);
        }
        if need_arena > ARENA - self.table.arena_len() {
            return Err(Error::ArenaFull);
        }
        let base: u64 = match self.next_seq.checked_add(1) {
            None => {
                return Err(Error::CounterExhausted);
            },
            Some(b) => b,
        };
        let last: u64 = match base.checked_add(n as u64 - 1) {
            None => {
                return Err(Error::CounterExhausted);
            },
            Some(l) => l,
        };
        let ghost rs = batch_recs(ops, base);
        let mark: StageMark = self.stage_mark();
        match self.stage_batch(batch, base) {
            Ok(()) => {},
            Err(e) => {
                return Err(e);
            },
        }
        proof {
            lemma_log_nonempty(rs);
        }
        match self.wal.commit() {
            Ok(()) => {},
            Err(e) => {
                let landed: bool = self.wal.next_block() != mark.next_block;
                match self.rollback_commit(
                    mark,
                    if landed {
                        n as u64
                    } else {
                        0
                    },
                ) {
                    Ok(()) => {},
                    Err(x) => {
                        return Err(x);
                    },
                }
                proof {
                    Self::lemma_open_kept(old(self), self);
                    if old(self).sound() {
                        Self::lemma_batch_sound(old(self), self, ops, Err(Error::NoSpace));
                    }
                }
                return match e {
                    Error::NoSpace => Err(Error::WalFull),
                    other => Err(other),
                };
            },
        }
        self.next_seq = last;
        self.insert_batch(batch, base);
        proof {
            lemma_applied_top(old(self).mem(), rs, last);
            Self::lemma_open_kept(old(self), self);
            if old(self).sound() {
                Self::lemma_batch_sound(old(self), self, ops, Ok(base));
            }
        }
        Ok(base)
    }

    /// Stages every record of the batch.
    fn stage_batch<const OPS: usize>(
        &mut self,
        batch: &WriteBatch<KEY_MAX, VAL_MAX, OPS>,
        base: u64,
    ) -> (r: Result<(), Error<D::Error>>)
        requires
            old(self).wal.wf(),
            old(self).wal.staged().len() == 0,
            batch.wf(),
            batch_wal(batch@) <= BLOCK,
            base + batch@.len() - 1 <= u64::MAX,
            KEY_MAX <= 0xFFFF,
            VAL_MAX <= 0xFFFF,
        ensures
            r is Ok,
            *final(self) == (Db { wal: final(self).wal, ..*old(self) }),
            final(self).wal.wf(),
            final(self).wal.dev() == old(self).wal.dev(),
            final(self).wal.same_region(&old(self).wal),
            final(self).wal.next() == old(self).wal.next(),
            final(self).wal.staged() == log_bytes(batch_recs(batch@, base)),
    {
        let ghost ops = batch@;
        let ghost rs = batch_recs(ops, base);
        let n: usize = batch.len();
        let mut i: usize = 0;
        proof {
            assert(rs.take(0) =~= Seq::<WalRec>::empty());
            assert(self.wal.staged() =~= Seq::<u8>::empty());
            batch.lemma_wf();
        }
        while i < n
            invariant
                batch.wf(),
                ops == batch@,
                rs == batch_recs(ops, base),
                n == ops.len(),
                i <= n,
                batch_wal(ops) <= BLOCK,
                base + n - 1 <= u64::MAX,
                KEY_MAX <= 0xFFFF,
                VAL_MAX <= 0xFFFF,
                forall|k: int| 0 <= k < ops.len() ==> op_queued(#[trigger] ops[k], KEY_MAX, VAL_MAX),
                *self == (Db { wal: self.wal, ..*old(self) }),
                self.wal.wf(),
                self.wal.dev() == old(self).wal.dev(),
                self.wal.same_region(&old(self).wal),
                self.wal.next() == old(self).wal.next(),
                self.wal.staged() == log_bytes(rs.take(i as int)),
            decreases n - i,
        {
            let op = batch.op(i);
            let seq: u64 = base + i as u64;
            proof {
                assert(op_queued(ops[i as int], KEY_MAX, VAL_MAX));
                lemma_log_push(rs, i as int);
                lemma_log_len(ops, base, i as int);
                lemma_log_len(ops, base, i + 1);
                lemma_batch_mono(ops, i + 1);
                law_record_roundtrip(rs[i as int], Seq::empty());
                if ops[i as int].kind == Op::Delete {
                    assert(ops[i as int].val =~= Seq::<u8>::empty());
                }
                assert(rs[i as int].val =~= if ops[i as int].kind == Op::Delete {
                    Seq::empty()
                } else {
                    ops[i as int].val
                });
            }
            match self.wal.append(seq, op.kind(), op.key(), op.val()) {
                Ok(()) => {},
                Err(e) => {
                    assert(false);
                    return Err(e);
                },
            }
            i = i + 1;
        }
        assert(rs.take(n as int) =~= rs);
        Ok(())
    }

    /// Applies every op of the batch to the memtable. The table has room for
    /// them, so this cannot fail.
    fn insert_batch<const OPS: usize>(
        &mut self,
        batch: &WriteBatch<KEY_MAX, VAL_MAX, OPS>,
        base: u64,
    )
        requires
            old(self).table.wf(),
            batch.wf(),
            base + batch@.len() - 1 <= u64::MAX,
            old(self).table@.len() + batch@.len() <= CAP,
            arena_used(old(self).table@) + batch_arena(batch@) <= ARENA,
        ensures
            *final(self) == (Db { table: final(self).table, ..*old(self) }),
            final(self).table.wf(),
            final(self).table@ == applied(old(self).table@, batch_recs(batch@, base)),
    {
        let ghost ops = batch@;
        let ghost rs = batch_recs(ops, base);
        let ghost mem0 = self.table@;
        let n: usize = batch.len();
        let mut i: usize = 0;
        proof {
            assert(rs.take(0) =~= Seq::<WalRec>::empty());
            batch.lemma_wf();
        }
        while i < n
            invariant
                batch.wf(),
                ops == batch@,
                rs == batch_recs(ops, base),
                mem0 == old(self).table@,
                n == ops.len(),
                i <= n,
                base + n - 1 <= u64::MAX,
                forall|k: int| 0 <= k < ops.len() ==> op_queued(#[trigger] ops[k], KEY_MAX, VAL_MAX),
                *self == (Db { table: self.table, ..*old(self) }),
                self.table.wf(),
                self.table@ == applied(mem0, rs.take(i as int)),
                mem0.len() + n <= CAP,
                arena_used(mem0) + batch_arena(ops) <= ARENA,
                self.table@.len() == mem0.len() + i,
                arena_used(self.table@) == arena_used(mem0) + batch_arena(ops.take(i as int)),
            decreases n - i,
        {
            let op = batch.op(i);
            let seq: u64 = base + i as u64;
            let ghost mem = self.table@;
            proof {
                assert(op_queued(ops[i as int], KEY_MAX, VAL_MAX));
                assert(rs.take(i + 1).drop_last() =~= rs.take(i as int));
                assert(rs.take(i + 1).last() == rs[i as int]);
                assert(ops.take(i + 1).drop_last() =~= ops.take(i as int));
                assert(ops.take(i + 1).last() == ops[i as int]);
                lemma_batch_mono(ops, i + 1);
                self.table.lemma_wf();
                let e = entry_of(rs[i as int]);
                lemma_lower(mem, e.key);
                lemma_arena_insert(mem, lower(mem, e.key), e);
            }
            match self.table.insert::<D::Error>(op.key(), op.val(), seq, op.kind() == Op::Delete) {
                Ok(()) => {},
                Err(_) => {
                    assert(false);
                },
            }
            i = i + 1;
        }
        proof {
            assert(rs.take(n as int) =~= rs);
        }
    }

    /// A batch write keeps the database sound.
    pub proof fn lemma_batch_sound(
        a: &Self,
        b: &Self,
        ops: Seq<BatchOpV>,
        r: Result<u64, Error<D::Error>>,
    )
        requires
            a.wf(),
            a.sound(),
            a.wal_next() < a.config().wal_end || b.content() == a.content(),
            a.issued_seq() + ops.len() <= u64::MAX,
            b.is_opened(),
            b.man() == a.man(),
            b.images() == a.images(),
            b.slot_map() == a.slot_map(),
            b.config() == a.config(),
            b.issued_seq() >= a.issued_seq(),
            b.wal_next() >= a.wal_next(),
            b.content() == a.content() || b.content() == a.content().insert(
                a.wal_next(),
                b.content()[a.wal_next()],
            ),
            b.mem() == (if r is Ok {
                applied(a.mem(), batch_recs(ops, (a.issued_seq() + 1) as u64))
            } else {
                a.mem()
            }),
        ensures
            b.sound(),
    {
        reveal(Db::tidy);
        a.lemma_wf();
        if r is Ok {
            a.table.lemma_wf();
            lemma_applied_order(
                a.mem(),
                batch_recs(ops, (a.issued_seq() + 1) as u64),
                a.issued_seq(),
            );
        }
        if b.content() != a.content() {
            let w = a.wal_next();
            Self::lemma_wal_apart(a);
            lemma_tables_kept(
                a.slot_map(),
                a.images(),
                a.content(),
                b.content(),
                a.man().levels,
                Self::dims(),
                w as int,
                w + 1,
            );
        }
    }
}

/// The WAL records of a batch: op `i` takes sequence `base + i`.
pub open spec fn batch_recs(ops: Seq<BatchOpV>, base: u64) -> Seq<WalRec> {
    Seq::new(
        ops.len(),
        |i: int|
            WalRec {
                seq: (base + i) as u64,
                op: ops[i].kind,
                key: ops[i].key,
                val: ops[i].val,
                expire_at: 0,
            },
    )
}

/// WAL bytes that a batch takes.
pub open spec fn batch_wal(ops: Seq<BatchOpV>) -> nat
    decreases ops.len(),
{
    if ops.len() == 0 {
        0
    } else {
        batch_wal(ops.drop_last()) + 23 + ops.last().key.len() + ops.last().val.len()
    }
}

/// Arena bytes that a batch takes.
pub open spec fn batch_arena(ops: Seq<BatchOpV>) -> nat
    decreases ops.len(),
{
    if ops.len() == 0 {
        0
    } else {
        batch_arena(ops.drop_last()) + ops.last().key.len() + ops.last().val.len()
    }
}

/// The memtable after the records, in order.
pub open spec fn applied(mem: Seq<Rec>, rs: Seq<WalRec>) -> Seq<Rec>
    decreases rs.len(),
{
    if rs.len() == 0 {
        mem
    } else {
        with_rec(applied(mem, rs.drop_last()), entry_of(rs.last()))
    }
}

proof fn lemma_batch_sums(ops: Seq<BatchOpV>, n: int)
    ensures
        batch_wal(ops) == batch_arena(ops) + 23 * ops.len(),
    decreases ops.len(),
{
    if ops.len() > 0 {
        lemma_batch_sums(ops.drop_last(), n - 1);
    }
}

/// A prefix of a batch takes no more than the whole.
pub(super) proof fn lemma_batch_mono(ops: Seq<BatchOpV>, n: int)
    requires
        0 <= n <= ops.len(),
    ensures
        batch_wal(ops.take(n)) <= batch_wal(ops),
        batch_arena(ops.take(n)) <= batch_arena(ops),
    decreases ops.len() - n,
{
    if n < ops.len() {
        lemma_batch_mono(ops, n + 1);
        assert(ops.take(n + 1).drop_last() =~= ops.take(n));
    } else {
        assert(ops.take(n) =~= ops);
    }
}

/// One more record of a log.
proof fn lemma_log_push(rs: Seq<WalRec>, i: int)
    requires
        0 <= i < rs.len(),
    ensures
        log_bytes(rs.take(i + 1)) == log_bytes(rs.take(i)) + rec_bytes(rs[i]),
    decreases i,
{
    let a = rs.take(i + 1);
    let b = rs.take(i);
    if i == 0 {
        assert(a.skip(1) =~= Seq::<WalRec>::empty());
        assert(b =~= Seq::<WalRec>::empty());
        assert(log_bytes(a.skip(1)) =~= Seq::<u8>::empty());
        assert(log_bytes(a) =~= rec_bytes(rs[0]));
        assert(log_bytes(b) + rec_bytes(rs[0]) =~= rec_bytes(rs[0]));
    } else {
        let t = rs.skip(1);
        lemma_log_push(t, i - 1);
        assert(a.skip(1) =~= t.take(i));
        assert(b.skip(1) =~= t.take(i - 1));
        assert(log_bytes(a) =~= log_bytes(b) + rec_bytes(rs[i]));
    }
}

/// The log of a batch takes the bytes counted for it.
pub(super) proof fn lemma_log_len(ops: Seq<BatchOpV>, base: u64, i: int)
    requires
        0 <= i <= ops.len(),
        forall|k: int| 0 <= k < ops.len() ==> queued_ok(#[trigger] ops[k]),
    ensures
        log_bytes(batch_recs(ops, base).take(i)).len() == batch_wal(ops.take(i)),
    decreases i,
{
    let rs = batch_recs(ops, base);
    if i == 0 {
        assert(rs.take(0) =~= Seq::<WalRec>::empty());
    } else {
        lemma_log_len(ops, base, i - 1);
        lemma_log_push(rs, i - 1);
        assert(queued_ok(ops[i - 1]));
        law_record_roundtrip(rs[i - 1], Seq::empty());
        assert(ops.take(i).drop_last() =~= ops.take(i - 1));
        assert(ops.take(i).last() == ops[i - 1]);
    }
}

/// What every queued op satisfies.
pub open spec fn queued_ok(o: BatchOpV) -> bool {
    &&& o.kind == Op::Put || (o.kind == Op::Delete && o.val.len() == 0)
    &&& o.key.len() <= 0xFFFF
    &&& o.val.len() <= 0xFFFF
}

proof fn lemma_log_nonempty(rs: Seq<WalRec>)
    requires
        rs.len() > 0,
        rec_valid(rs[0]),
    ensures
        log_bytes(rs).len() > 0,
{
    law_record_roundtrip(rs[0], Seq::empty());
}

/// Sequences of the applied records bound the memtable's.
proof fn lemma_applied_top(mem: Seq<Rec>, rs: Seq<WalRec>, m: u64)
    requires
        key_sorted(mem),
        top_seq(mem) <= m,
        forall|i: int| 0 <= i < rs.len() ==> (#[trigger] rs[i]).seq <= m,
    ensures
        key_sorted(applied(mem, rs)),
        top_seq(applied(mem, rs)) <= m,
    decreases rs.len(),
{
    if rs.len() > 0 {
        let d = rs.drop_last();
        assert forall|i: int| 0 <= i < d.len() implies (#[trigger] d[i]).seq <= m by {
            assert(rs[i].seq <= m);
        }
        lemma_applied_top(mem, d, m);
        let v = applied(mem, d);
        let e = entry_of(rs.last());
        law_with_rec_keeps_order(v, e);
        lemma_lower(v, e.key);
        lemma_top_insert(v, lower(v, e.key), e);
        assert(rs[rs.len() - 1].seq <= m);
    }
}

/// Records with ascending, fresh sequences keep the memtable newest-first.
proof fn lemma_applied_order(mem: Seq<Rec>, rs: Seq<WalRec>, top: u64)
    requires
        key_sorted(mem),
        runs_newest_first(mem),
        seqs_given(mem),
        top_seq(mem) <= top,
        forall|i: int| 0 <= i < rs.len() ==> (#[trigger] rs[i]).seq == top + 1 + i,
    ensures
        runs_newest_first(applied(mem, rs)),
        seqs_given(applied(mem, rs)),
        key_sorted(applied(mem, rs)),
        top_seq(applied(mem, rs)) <= top + rs.len(),
    decreases rs.len(),
{
    if rs.len() > 0 {
        let d = rs.drop_last();
        assert forall|i: int| 0 <= i < d.len() implies (#[trigger] d[i]).seq == top + 1 + i by {
            assert(rs[i].seq == top + 1 + i);
        }
        lemma_applied_order(mem, d, top);
        let v = applied(mem, d);
        let e = entry_of(rs.last());
        assert(rs[rs.len() - 1].seq == top + rs.len());
        assert forall|i: int| 0 <= i < v.len() && #[trigger] v[i].key == e.key implies v[i].seq
            < e.seq by {
            lemma_top_bound(v, i);
        }
        law_with_rec_keeps_order(v, e);
        lemma_seqs_with(v, e);
        lemma_lower(v, e.key);
        lemma_top_insert(v, lower(v, e.key), e);
    }
}

/// A numbered entry keeps all numbered.
proof fn lemma_seqs_with(mem: Seq<Rec>, e: Rec)
    requires
        key_sorted(mem),
        seqs_given(mem),
        e.seq >= 1,
    ensures
        seqs_given(with_rec(mem, e)),
{
    lemma_lower(mem, e.key);
    let p = lower(mem, e.key);
    let w = with_rec(mem, e);
    assert forall|i: int| 0 <= i < w.len() implies (#[trigger] w[i]).seq >= 1 by {
        if i < p {
            assert(w[i] == mem[i]);
        } else if i > p {
            assert(w[i] == mem[i - 1]);
        }
    }
}

/// Arena and WAL bytes that a batch takes.
fn batch_need<
    E,
    const BLOCK: usize,
    const KEY_MAX: usize,
    const VAL_MAX: usize,
    const OPS: usize,
>(batch: &WriteBatch<KEY_MAX, VAL_MAX, OPS>) -> (r: Result<(usize, usize), Error<E>>)
    requires
        batch.wf(),
        KEY_MAX <= 0xFFFF,
        VAL_MAX <= 0xFFFF,
    ensures
        match r {
            Ok((a, w)) => a == batch_arena(batch@) && w == batch_wal(batch@),
            Err(e) => batch_wal(batch@) > usize::MAX && (e == Error::<E>::ArenaFull || e == (
            Error::<E>::BatchTooLarge { bytes: usize::MAX, max: BLOCK })),
        },
{
    let ghost ops = batch@;
    let n: usize = batch.len();
    let mut arena: usize = 0;
    let mut wal: usize = 0;
    let mut i: usize = 0;
    proof {
        assert(ops.take(0) =~= Seq::<BatchOpV>::empty());
    }
    while i < n
        invariant
            batch.wf(),
            ops == batch@,
            n == ops.len(),
            i <= n,
            KEY_MAX <= 0xFFFF,
            VAL_MAX <= 0xFFFF,
            arena == batch_arena(ops.take(i as int)),
            wal == batch_wal(ops.take(i as int)),
        decreases n - i,
    {
        let op = batch.op(i);
        proof {
            assert(ops.take(i + 1).drop_last() =~= ops.take(i as int));
            assert(ops.take(i + 1).last() == ops[i as int]);
            lemma_batch_mono(ops, i + 1);
            lemma_batch_sums(ops.take(i + 1), i + 1);
        }
        let bytes: usize = op.key().len() + op.val().len();
        arena = match arena.checked_add(bytes) {
            None => {
                return Err(Error::ArenaFull);
            },
            Some(a) => a,
        };
        wal = match wal.checked_add(WAL_RECORD_OVERHEAD + bytes) {
            None => {
                return Err(Error::BatchTooLarge { bytes: usize::MAX, max: BLOCK });
            },
            Some(w) => w,
        };
        i = i + 1;
    }
    assert(ops.take(n as int) =~= ops);
    Ok((arena, wal))
}

impl<'a> Mutation<'a> {
    /// The WAL record of the mutation, but for its sequence.
    spec fn rec(&self) -> WalRec {
        match *self {
            Mutation::Put { key, val } => put_rec(key@, val@),
            Mutation::PutTtl { key, val, expire_at } => ttl_rec(key@, val@, expire_at),
            Mutation::Delete { key } => delete_rec(key@),
            Mutation::RangeDelete { start, end } => range_delete_rec(start@, end@),
        }
    }
}

/// The record of a put.
pub open spec fn put_rec(key: Seq<u8>, val: Seq<u8>) -> WalRec {
    WalRec { seq: 0, op: Op::Put, key, val, expire_at: 0 }
}

/// The record of a put with an expiry tick.
pub open spec fn ttl_rec(key: Seq<u8>, val: Seq<u8>, expire_at: u64) -> WalRec {
    WalRec {
        seq: 0,
        op: if expire_at == 0 {
            Op::Put
        } else {
            Op::PutTtl
        },
        key,
        val,
        expire_at,
    }
}

/// The record of a delete.
pub open spec fn delete_rec(key: Seq<u8>) -> WalRec {
    WalRec { seq: 0, op: Op::Delete, key, val: Seq::empty(), expire_at: 0 }
}

/// The record of a range delete.
pub open spec fn range_delete_rec(start: Seq<u8>, end: Seq<u8>) -> WalRec {
    WalRec { seq: 0, op: Op::RangeDelete, key: start, val: end, expire_at: 0 }
}

} // verus!

//! The archival test: would dropping a table bring a deleted value back?

use vstd::prelude::*;

use super::compact_reads::lemma_acc_best;
use super::place::at;
use super::view::{
    is_run_of, mem_acc, read_order, read_spec, tab_rdels, tab_recs, tab_run, tab_sound,
};
use super::Db;
use crate::bytes::{bytes_le, bytes_lt, lex_le, lex_lt};
use crate::compact::bounds::{overlap, ranges_overlap};
use crate::compact::cursor::{rec_within, table_stream, Cursor, StreamV};
use crate::compact::merge::MAX_SNAPSHOTS;
use crate::compact::sift::lemma_first_at;
use crate::device::BlockDevice;
use crate::error::Error;
use crate::keys::KeyBound;
use crate::manifest::{data_blocks_of, TableRef};
use crate::manifest_format::TabV;
use crate::memtable::is_hit;
use crate::sstable::block::{rdel_block_count, rdel_parse_at};
use crate::sstable::format::{law_rdel_block_reads_back, rdel_block, rdel_parse, rdels_in, RdelV};
use crate::sstable::table::flat_rdels;

verus! {

impl<
    D: BlockDevice,
    const BLOCK: usize,
    const KEY_MAX: usize,
    const VAL_MAX: usize,
    const CAP: usize,
    const ARENA: usize,
    const LEVELS: usize,
    const TABLES: usize,
    const BLOOM_BYTES: usize,
    const CACHE: usize,
> Db<D, BLOCK, KEY_MAX, VAL_MAX, CAP, ARENA, LEVELS, TABLES, BLOOM_BYTES, CACHE> {
    /// What a read of `key` at `view` returns without table `skip`; nothing
    /// expires.
    pub open spec fn seen(&self, key: Seq<u8>, view: u64, skip: Option<u32>) -> Option<Seq<u8>> {
        read_spec(
            self.mem(),
            self.content(),
            self.man().levels,
            Self::dims(),
            key,
            view,
            0,
            skip,
        )
    }

    /// `key` reads as missing, but has a value without table `id`.
    pub open spec fn flips(&self, key: Seq<u8>, view: u64, id: u32) -> bool {
        self.seen(key, view, None) is None && self.seen(key, view, Some(id)) is Some
    }

    /// The live view, or a live snapshot.
    pub open spec fn is_view(&self, v: u64) -> bool {
        v == u64::MAX || self.snaps().contains(v)
    }

    /// `key` flips in some view that sees sequence `seq`.
    pub open spec fn flips_in_view(&self, key: Seq<u8>, seq: u64, id: u32) -> bool {
        exists|v: u64| #[trigger] self.is_view(v) && seq <= v && self.flips(key, v, id)
    }

    /// A deletion in table `t` hides a value that another source holds.
    pub open spec fn point_revives(&self, t: TabV) -> bool {
        let recs = tab_recs(self.content(), t, Self::dims());
        exists|i: int|
            0 <= i < recs.len() && (#[trigger] recs[i]).tombstone && self.flips_in_view(
                recs[i].key,
                recs[i].seq,
                t.id,
            )
    }

    /// Another live table's range overlaps the tombstone's.
    pub open spec fn others_overlap(&self, id: u32, r: RdelV) -> bool {
        exists|l: int, i: int|
            at(self.man().levels, l, i) && (#[trigger] self.man().levels[l][i]).id != id && overlap(
                self.man().levels[l][i].first_key,
                self.man().levels[l][i].last_key,
                r.start,
                r.end,
            )
    }

    /// A value in the memtable inside the tombstone's range flips.
    pub open spec fn mem_revives(&self, id: u32, r: RdelV) -> bool {
        let mem = self.mem();
        exists|i: int|
            0 <= i < mem.len() && !(#[trigger] mem[i]).range_del && !mem[i].tombstone && lex_le(
                r.start,
                mem[i].key,
            ) && lex_lt(mem[i].key, r.end) && self.flips_in_view(mem[i].key, r.seq, id)
    }

    /// Range tombstone `r` of table `id` may hide a value that another
    /// source holds.
    pub open spec fn rdel_revives(&self, id: u32, r: RdelV) -> bool {
        self.others_overlap(id, r) || self.mem_revives(id, r)
    }

    /// One of the range tombstones of table `id` may hide a value.
    pub open spec fn some_revives(&self, id: u32, rs: Seq<RdelV>) -> bool {
        exists|i: int| 0 <= i < rs.len() && self.rdel_revives(id, #[trigger] rs[i])
    }

    /// Dropping table `t` may bring a deleted value back.
    pub open spec fn would_resurrect(&self, t: TabV) -> bool {
        self.point_revives(t) || self.some_revives(
            t.id,
            tab_rdels(self.content(), t, Self::dims()),
        )
    }

    /// Values fit the longest one.
    proof fn lemma_seen_len(&self, key: Seq<u8>, view: u64, skip: Option<u32>)
        requires
            self.wf(),
            self.sound(),
        ensures
            self.seen(key, view, skip) matches Some(v) ==> v.len() <= VAL_MAX,
    {
        let d = Self::dims();
        let c = self.content();
        let ro = read_order(self.man().levels);
        let a0 = mem_acc(self.mem(), key, view);
        lemma_acc_best(a0, c, ro, d, key, view, skip);
        let best = super::view::acc_over(a0, c, ro, d, key, view, skip).best;
        self.lemma_mem_ok();
        if best is Some {
            if best == a0.best {
                lemma_first_at(self.mem(), key, view);
                let i = choose|i: int| #[trigger]
                    is_hit(self.mem(), key, view, i) && Some(self.mem()[i]) == best;
                assert(super::flush::mem_rec_ok(self.mem()[i], KEY_MAX as int, VAL_MAX as int));
            } else {
                let k = choose|k: int|
                    0 <= k < ro.len() && skip != Some((#[trigger] ro[k]).id)
                        && crate::compact::sift::first_at(tab_recs(c, ro[k], d), key, view) == best;
                let (l, y) = super::place::lemma_read_order(self.man().levels, k);
                assert(tab_sound(c, self.man().levels[l][y], d));
                let run = tab_run(c, ro[k], d);
                assert(is_run_of(run, c, ro[k], d));
                let recs = run.recs();
                lemma_first_at(recs, key, view);
                let i = choose|i: int| #[trigger]
                    is_hit(recs, key, view, i) && Some(recs[i]) == best;
                assert(rec_within(recs[i], KEY_MAX, VAL_MAX));
            }
        }
    }

    /// Buffers do not bear on what flips.
    proof fn lemma_flips_same(a: &Self, b: &Self, key: Seq<u8>, seq: u64, id: u32)
        requires
            b.same_state(a),
        ensures
            b.flips_in_view(key, seq, id) == a.flips_in_view(key, seq, id),
    {
        if a.flips_in_view(key, seq, id) {
            let v = choose|v: u64| #[trigger] a.is_view(v) && seq <= v && a.flips(key, v, id);
            assert(b.is_view(v) && b.flips(key, v, id));
        }
        if b.flips_in_view(key, seq, id) {
            let v = choose|v: u64| #[trigger] b.is_view(v) && seq <= v && b.flips(key, v, id);
            assert(a.is_view(v) && a.flips(key, v, id));
        }
    }

    /// Whether `key` flips at `view` without table `id`.
    fn check_flip(&mut self, key: &[u8], view: u64, id: u32, val: &mut [u8; VAL_MAX]) -> (r: Result<
        bool,
        Error<D::Error>,
    >)
        requires
            old(self).wf(),
            old(self).is_opened(),
        ensures
            final(self).wf(),
            final(self).same_state(old(self)),
            old(self).sound() ==> final(self).sound(),
            match r {
                Ok(b) => old(self).sound() ==> b == old(self).flips(key@, view, id),
                Err(e) => Self::read_error(e) && (old(self).sound() ==> e is Device),
            },
    {
        let ghost a = *self;
        proof {
            if self.sound() {
                self.lemma_seen_len(key@, view, None);
                self.lemma_seen_len(key@, view, Some(id));
            }
        }
        let hit: Option<usize> = match self.read_point(key, val, view, 0, None) {
            Ok(h) => h,
            Err(e) => {
                return Err(e);
            },
        };
        if hit.is_some() {
            return Ok(false);
        }
        match self.read_point(key, val, view, 0, Some(id)) {
            Ok(h) => Ok(h.is_some()),
            Err(e) => Err(e),
        }
    }

    /// Whether `key` flips in the live view or a live snapshot that sees
    /// sequence `seq`. Both probes use the same view watermark: a view
    /// whose watermark predates the tombstone cannot see it and is skipped,
    /// and for every other view the two reads differ only by the candidate.
    /// (Reading the alternate at a lower watermark would hide later
    /// protective tombstones and falsely report a resurrection.)
    fn check_views(&mut self, key: &[u8], seq: u64, id: u32, val: &mut [u8; VAL_MAX]) -> (r: Result<
        bool,
        Error<D::Error>,
    >)
        requires
            old(self).wf(),
            old(self).is_opened(),
        ensures
            final(self).wf(),
            final(self).same_state(old(self)),
            old(self).sound() ==> final(self).sound(),
            match r {
                Ok(b) => old(self).sound() ==> b == old(self).flips_in_view(key@, seq, id),
                Err(e) => Self::read_error(e) && (old(self).sound() ==> e is Device),
            },
    {
        let ghost a = *self;
        match self.check_flip(key, u64::MAX, id, val) {
            Ok(b) => {
                if b {
                    assert(a.is_view(u64::MAX));
                    return Ok(true);
                }
            },
            Err(e) => {
                return Err(e);
            },
        }
        let n: usize = self.n_snapshots;
        let mut i: usize = 0;
        proof {
            self.lemma_wf();
        }
        while i < n
            invariant
                i <= n,
                n <= MAX_SNAPSHOTS,
                a == *old(self),
                self.wf(),
                a.is_opened(),
                self.same_state(&a),
                n == self.n_snapshots,
                a.sound() ==> self.sound(),
                a.sound() ==> !a.flips(key@, u64::MAX, id),
                a.sound() ==> forall|x: int|
                    0 <= x < i ==> !(seq <= #[trigger] a.snaps()[x] && a.flips(
                        key@,
                        a.snaps()[x],
                        id,
                    )),
            decreases n - i,
        {
            let view: u64 = self.snapshots[i];
            proof {
                assert(self.snaps()[i as int] == view);
                assert(a.snaps()[i as int] == view);
            }
            if seq <= view {
                let ghost before = *self;
                match self.check_flip(key, view, id, val) {
                    Ok(b) => {
                        proof {
                            assert(self.snaps().len() == n) by {
                                assert(before.snaps().len() == n);
                                self.lemma_wf();
                            }
                        }
                        if b {
                            assert(a.snaps().contains(view));
                            assert(a.is_view(view));
                            return Ok(true);
                        }
                    },
                    Err(e) => {
                        return Err(e);
                    },
                }
            }
            i = i + 1;
        }
        proof {
            assert(a.snaps().len() == n);
            if a.sound() && a.flips_in_view(key@, seq, id) {
                let v = choose|v: u64| #[trigger]
                    a.is_view(v) && seq <= v && a.flips(key@, v, id);
                let x = a.snaps().index_of(v);
                assert(a.snaps()[x] == v);
            }
        }
        Ok(false)
    }

    /// What any probe of the test may report.
    pub open spec fn revival_error(e: Error<D::Error>) -> bool {
        Self::read_error(e) || e is KeyTooLarge || e is ValueTooLarge
    }

    /// The point-tombstone half of the test: `true` when a deletion in
    /// the candidate hides a value.
    fn check_points_no_resurrection(&mut self, candidate: &TableRef<KEY_MAX>) -> (r: Result<
        bool,
        Error<D::Error>,
    >)
        requires
            old(self).wf(),
            old(self).is_opened(),
        ensures
            final(self).wf(),
            final(self).same_state(old(self)),
            old(self).sound() ==> final(self).sound(),
            old(self).sound() && tab_sound(
                old(self).content(),
                candidate@,
                Self::dims(),
            ) ==> match r {
                Ok(b) => b == old(self).point_revives(candidate@),
                Err(e) => e is Device,
            },
            r matches Err(e) ==> Self::revival_error(e),
    {
        let ghost a = *self;
        let ghost c = self.content();
        let ghost t = candidate@;
        let ghost d = Self::dims();
        let ghost s = table_stream(c, t, KEY_MAX, VAL_MAX);
        let ghost good = a.sound() && tab_sound(c, t, d);
        let ghost recs = tab_recs(c, t, d);
        proof {
            self.lemma_wf();
            if good {
                super::compacted::lemma_tab_streams(c, t, d);
            }
        }
        let mut raw: [u8; BLOCK] = [0;BLOCK];
        let mut val: [u8; VAL_MAX] = [0;VAL_MAX];
        let mut cur: Cursor<BLOCK, KEY_MAX, VAL_MAX> = Cursor::empty();
        match cur.init(self.wal.device(), &mut raw, candidate) {
            Ok(()) => {},
            Err(e) => {
                return Err(e);
            },
        }
        let ghost mut n: int = 0;
        proof {
            assert(s.recs.skip(0) =~= s.recs);
        }
        while cur.live()
            invariant
                a == *old(self),
                self.wf(),
                a.is_opened(),
                self.same_state(&a),
                Self::shape(),
                c == a.content(),
                t == candidate@,
                d == Self::dims(),
                s == table_stream(c, t, KEY_MAX, VAL_MAX),
                good == (a.sound() && tab_sound(c, t, d)),
                recs == tab_recs(c, t, d),
                good ==> s.recs == recs && s.fault is None,
                a.sound() ==> self.sound(),
                cur.wf(),
                0 <= n <= s.recs.len(),
                cur.rest(c) == (StreamV { recs: s.recs.skip(n), fault: s.fault }),
                good ==> forall|i: int|
                    0 <= i < n ==> !((#[trigger] recs[i]).tombstone && a.flips_in_view(
                        recs[i].key,
                        recs[i].seq,
                        t.id,
                    )),
            decreases s.recs.len() - n,
        {
            let ghost rest = s.recs.skip(n);
            proof {
                cur.lemma_head(c);
                assert(rest.len() > 0 && rest[0] == cur.head_rec());
                assert(s.recs[n] == rest[0]);
            }
            if cur.tombstone() {
                proof {
                    Self::lemma_flips_same(&a, self, s.recs[n].key, s.recs[n].seq, t.id);
                }
                match self.check_views(cur.key(), cur.seq(), candidate.id, &mut val) {
                    Ok(b) => {
                        if b {
                            proof {
                                if good {
                                    assert(recs[n].tombstone && a.flips_in_view(
                                        recs[n].key,
                                        recs[n].seq,
                                        t.id,
                                    ));
                                }
                            }
                            return Ok(true);
                        }
                    },
                    Err(e) => {
                        return Err(e);
                    },
                }
            }
            match cur.advance(self.wal.device(), &mut raw) {
                Ok(_) => {},
                Err(e) => {
                    return Err(e);
                },
            }
            proof {
                assert(rest.skip(1) =~= s.recs.skip(n + 1));
                n = n + 1;
            }
        }
        proof {
            cur.lemma_head(c);
        }
        Ok(false)
    }

    /// Whether another live table's range overlaps `[start, end]`. Table
    /// bounds are inclusive; the tombstone end is exclusive, so treating it
    /// as inclusive is conservative (a table starting exactly at `end`
    /// holds no covered key, but flagging it only skips an archive, never a
    /// result).
    fn check_others(&self, id: u32, start: KeyBound<KEY_MAX>, end: KeyBound<KEY_MAX>) -> (r: bool)
        requires
            self.wf(),
            start.wf(),
            end.wf(),
        ensures
            r == exists|l: int, i: int|
                at(self.man().levels, l, i) && (#[trigger] self.man().levels[l][i]).id != id
                    && overlap(
                    self.man().levels[l][i].first_key,
                    self.man().levels[l][i].last_key,
                    start@,
                    end@,
                ),
    {
        let ghost levels = self.man().levels;
        proof {
            self.lemma_wf();
        }
        let mut lvl: usize = 0;
        while lvl < LEVELS
            invariant
                lvl <= LEVELS,
                self.wf(),
                levels == self.man().levels,
                levels.len() == LEVELS,
                start.wf(),
                end.wf(),
                forall|l: int, i: int|
                    at(levels, l, i) && l < lvl ==> !((#[trigger] levels[l][i]).id != id && overlap(
                        levels[l][i].first_key,
                        levels[l][i].last_key,
                        start@,
                        end@,
                    )),
            decreases LEVELS - lvl,
        {
            match self.manifest.level(lvl) {
                Some(ts) => {
                    let mut i: usize = 0;
                    while i < ts.len()
                        invariant
                            i <= ts@.len(),
                            lvl < LEVELS,
                            self.wf(),
                            levels == self.man().levels,
                            levels.len() == LEVELS,
                            crate::manifest::tab_views(ts@) == levels[lvl as int],
                            crate::manifest::refs_wf(ts@),
                            start.wf(),
                            end.wf(),
                            forall|x: int|
                                0 <= x < i ==> !((#[trigger] levels[lvl as int][x]).id != id
                                    && overlap(
                                    levels[lvl as int][x].first_key,
                                    levels[lvl as int][x].last_key,
                                    start@,
                                    end@,
                                )),
                        decreases ts@.len() - i,
                    {
                        assert(ts@[i as int].wf());
                        assert(levels[lvl as int][i as int] == ts@[i as int]@);
                        let t: &TableRef<KEY_MAX> = &ts[i];
                        if t.id != id && ranges_overlap(t.first_key, t.last_key, start, end) {
                            assert(at(levels, lvl as int, i as int));
                            return true;
                        }
                        i = i + 1;
                    }
                },
                None => {},
            }
            lvl = lvl + 1;
        }
        false
    }

    /// Whether a value in the memtable inside `[start, end)` flips in a
    /// view that sees `seq`. The memtable is in key order, so the walk
    /// stops at `end`. Range tombstones are skipped (they affect both reads
    /// equally), and so are point tombstones (they win in both reads, so no
    /// flip is possible).
    fn check_mem(
        &mut self,
        id: u32,
        start: &[u8],
        end: &[u8],
        seq: u64,
        val: &mut [u8; VAL_MAX],
    ) -> (r: Result<bool, Error<D::Error>>)
        requires
            old(self).wf(),
            old(self).is_opened(),
        ensures
            final(self).wf(),
            final(self).same_state(old(self)),
            old(self).sound() ==> final(self).sound(),
            match r {
                Ok(b) => old(self).sound() ==> b == old(self).mem_revives(
                    id,
                    (RdelV { start: start@, end: end@, seq }),
                ),
                Err(e) => Self::read_error(e) && (old(self).sound() ==> e is Device),
            },
    {
        let ghost a = *self;
        let ghost mem = self.mem();
        let ghost rd = RdelV { start: start@, end: end@, seq };
        proof {
            self.lemma_mem_ok();
        }
        let mut i: usize = 0;
        loop
            invariant
                a == *old(self),
                self.wf(),
                a.is_opened(),
                self.same_state(&a),
                mem == a.mem(),
                crate::memtable::key_sorted(mem),
                mem.len() <= CAP,
                rd == (RdelV { start: start@, end: end@, seq }),
                a.sound() ==> self.sound(),
                i <= mem.len(),
                a.sound() ==> forall|x: int|
                    0 <= x < i ==> !(!(#[trigger] mem[x]).range_del && !mem[x].tombstone && lex_le(
                        rd.start,
                        mem[x].key,
                    ) && lex_lt(mem[x].key, rd.end) && a.flips_in_view(mem[x].key, rd.seq, id)),
            ensures
                a.sound() ==> forall|x: int|
                    0 <= x < mem.len() ==> !(!(#[trigger] mem[x]).range_del && !mem[x].tombstone
                        && lex_le(rd.start, mem[x].key) && lex_lt(mem[x].key, rd.end)
                        && a.flips_in_view(mem[x].key, rd.seq, id)),
            decreases mem.len() - i,
        {
            let key: KeyBound<KEY_MAX>;
            let point: bool;
            proof {
                self.lemma_wf();
                self.lemma_mem_ok();
            }
            match self.table.slot_view(i) {
                Some(e) => {
                    key = match KeyBound::from_slice(e.key) {
                        Some(k) => k,
                        None => KeyBound::empty(),
                    };
                    point = !e.range_del && !e.tombstone;
                },
                None => {
                    break;
                },
            }
            proof {
                assert(key@ == mem[i as int].key);
                crate::bytes::lemma_lex_total(mem[i as int].key, end@);
            }
            if !bytes_lt(key.as_slice(), end) {
                proof {
                    assert forall|x: int| i <= x < mem.len() implies !lex_lt(
                        (#[trigger] mem[x]).key,
                        rd.end,
                    ) by {
                        assert(lex_le(mem[i as int].key, mem[x].key));
                        if lex_lt(mem[x].key, rd.end) {
                            crate::bytes::lemma_lex_le_lt(mem[i as int].key, mem[x].key, rd.end);
                        }
                    }
                }
                break;
            }
            if point && bytes_le(start, key.as_slice()) {
                proof {
                    Self::lemma_flips_same(&a, self, key@, seq, id);
                }
                match self.check_views(key.as_slice(), seq, id, val) {
                    Ok(b) => {
                        if b {
                            proof {
                                if a.sound() {
                                    assert(a.flips_in_view(mem[i as int].key, rd.seq, id));
                                }
                            }
                            return Ok(true);
                        }
                    },
                    Err(e) => {
                        return Err(e);
                    },
                }
            }
            i = i + 1;
        }
        Ok(false)
    }

    /// One range tombstone's share of the archival test: `true` unless
    /// the tombstone provably shadows nothing outside the candidate. Two
    /// conservative, bounded checks (full key enumeration would be
    /// O(database)): no other table's key range may overlap the tombstone
    /// range, and no memtable key inside it may flip from hidden to
    /// visible. Refusal is the safe answer; the remedy is to compact first
    /// (merging the tombstone into the overlapping table), then archive.
    fn check_rdel_no_resurrection(
        &mut self,
        candidate: &TableRef<KEY_MAX>,
        start: &[u8],
        end: &[u8],
        seq: u64,
        val: &mut [u8; VAL_MAX],
    ) -> (r: Result<bool, Error<D::Error>>)
        requires
            old(self).wf(),
            old(self).is_opened(),
        ensures
            final(self).wf(),
            final(self).same_state(old(self)),
            old(self).sound() ==> final(self).sound(),
            start@.len() > KEY_MAX || end@.len() > KEY_MAX ==> r == Err::<bool, Error<D::Error>>(
                Error::CorruptBlock { id: candidate.first_block },
            ),
            start@.len() <= KEY_MAX && end@.len() <= KEY_MAX ==> match r {
                Ok(b) => old(self).sound() ==> b == old(self).rdel_revives(
                    candidate.id,
                    (RdelV { start: start@, end: end@, seq }),
                ),
                Err(e) => Self::read_error(e) && (old(self).sound() ==> e is Device),
            },
    {
        proof {
            self.lemma_wf();
        }
        let first: KeyBound<KEY_MAX> = match KeyBound::from_slice(start) {
            Some(b) => b,
            None => {
                return Err(Error::CorruptBlock { id: candidate.first_block });
            },
        };
        let last: KeyBound<KEY_MAX> = match KeyBound::from_slice(end) {
            Some(b) => b,
            None => {
                return Err(Error::CorruptBlock { id: candidate.first_block });
            },
        };
        if self.check_others(candidate.id, first, last) {
            return Ok(true);
        }
        self.check_mem(candidate.id, start, end, seq, val)
    }

    /// The tombstones of one block of the candidate's section: `true` when
    /// one of them may hide a value.
    fn check_rdel_block(
        &mut self,
        candidate: &TableRef<KEY_MAX>,
        raw: &[u8; BLOCK],
        id: u64,
        val: &mut [u8; VAL_MAX],
        Ghost(rs): Ghost<Option<Seq<RdelV>>>,
    ) -> (r: Result<bool, Error<D::Error>>)
        requires
            old(self).wf(),
            old(self).is_opened(),
            rs matches Some(v) ==> {
                &&& crate::sstable::format::rdel_list(raw@) == Some(v)
                &&& crate::compact::rdel_merge::rdels_within(v, KEY_MAX)
            },
        ensures
            final(self).wf(),
            final(self).same_state(old(self)),
            old(self).sound() ==> final(self).sound(),
            r matches Err(e) ==> Self::revival_error(e),
            old(self).sound() && rs is Some ==> match r {
                Ok(b) => b == old(self).some_revives(candidate.id, rs->0),
                Err(e) => e is Device,
            },
    {
        let ghost a = *self;
        let ghost good = a.sound() && rs is Some;
        let ghost v = rs->0;
        proof {
            self.lemma_wf();
        }
        let count: usize = match rdel_block_count::<D::Error, BLOCK>(raw, id) {
            Ok(n) => n,
            Err(e) => {
                return Err(e);
            },
        };
        let mut off: usize = 0;
        let mut i: usize = 0;
        proof {
            assert(raw@.skip(0) =~= raw@);
            if good {
                lemma_rdels_in_len(raw@, count as nat);
                assert(v.skip(0) =~= v);
            }
        }
        while i < count
            invariant
                i <= count,
                off <= BLOCK,
                a == *old(self),
                self.wf(),
                a.is_opened(),
                self.same_state(&a),
                Self::shape(),
                a.sound() ==> self.sound(),
                good == (a.sound() && rs is Some),
                v == rs->0,
                good ==> v.len() == count && crate::compact::rdel_merge::rdels_within(v, KEY_MAX)
                    && rdels_in(raw@.skip(off as int), (count - i) as nat) == Some(
                    v.skip(i as int),
                ),
                good ==> forall|x: int|
                    0 <= x < i ==> !a.rdel_revives(candidate.id, #[trigger] v[x]),
            decreases count - i,
        {
            // Bounded by the stored count: the count/CRC trailer is never
            // parsed as entries.
            let (e, next) = match rdel_parse_at(raw, off) {
                Some(p) => p,
                None => {
                    return Err(Error::CorruptBlock { id });
                },
            };
            proof {
                if good {
                    let (x, n) = rdel_parse(raw@.skip(off as int))->0;
                    let more = rdels_in(
                        raw@.skip(off as int).skip(n as int),
                        (count - i - 1) as nat,
                    )->0;
                    assert(v.skip(i as int) == seq![x] + more);
                    assert(v.skip(i as int)[0] == v[i as int]);
                    assert(v[i as int] == e@);
                    assert(crate::compact::rdel_merge::rdel_within(v[i as int], KEY_MAX));
                    assert(raw@.skip(off as int).skip(n as int) =~= raw@.skip(next as int));
                    assert(more =~= v.skip(i + 1)) by {
                        assert(v.skip(i as int).skip(1) =~= more);
                        assert(v.skip(i as int).skip(1) =~= v.skip(i + 1));
                    }
                    Self::lemma_revives_same(&a, self, candidate.id, e@);
                }
            }
            match self.check_rdel_no_resurrection(candidate, e.start, e.end, e.seq, val) {
                Ok(b) => {
                    if b {
                        proof {
                            if good {
                                assert(a.rdel_revives(candidate.id, v[i as int]));
                            }
                        }
                        return Ok(true);
                    }
                },
                Err(x) => {
                    return Err(x);
                },
            }
            off = next;
            i = i + 1;
        }
        Ok(false)
    }

    /// Buffers do not bear on what a range tombstone hides.
    proof fn lemma_revives_same(a: &Self, b: &Self, id: u32, r: RdelV)
        requires
            b.same_state(a),
        ensures
            b.rdel_revives(id, r) == a.rdel_revives(id, r),
    {
        let mem = a.mem();
        assert forall|i: int| 0 <= i < mem.len() implies a.flips_in_view(
            (#[trigger] mem[i]).key,
            r.seq,
            id,
        ) == b.flips_in_view(mem[i].key, r.seq, id) by {
            Self::lemma_flips_same(a, b, mem[i].key, r.seq, id);
        }
        if a.mem_revives(id, r) {
            let i = choose|i: int|
                0 <= i < mem.len() && !(#[trigger] mem[i]).range_del && !mem[i].tombstone && lex_le(
                    r.start,
                    mem[i].key,
                ) && lex_lt(mem[i].key, r.end) && a.flips_in_view(mem[i].key, r.seq, id);
            assert(b.flips_in_view(b.mem()[i].key, r.seq, id));
        }
        if b.mem_revives(id, r) {
            let i = choose|i: int|
                0 <= i < mem.len() && !(#[trigger] b.mem()[i]).range_del && !b.mem()[i].tombstone
                    && lex_le(r.start, b.mem()[i].key) && lex_lt(b.mem()[i].key, r.end)
                    && b.flips_in_view(b.mem()[i].key, r.seq, id);
            assert(a.flips_in_view(mem[i].key, r.seq, id));
        }
    }

    /// The range-tombstone half of the test.
    fn check_rdels_no_resurrection(&mut self, candidate: &TableRef<KEY_MAX>) -> (r: Result<
        bool,
        Error<D::Error>,
    >)
        requires
            old(self).wf(),
            old(self).is_opened(),
        ensures
            final(self).wf(),
            final(self).same_state(old(self)),
            old(self).sound() ==> final(self).sound(),
            old(self).sound() && tab_sound(
                old(self).content(),
                candidate@,
                Self::dims(),
            ) ==> match r {
                Ok(b) => b == old(self).some_revives(
                    candidate.id,
                    tab_rdels(old(self).content(), candidate@, Self::dims()),
                ),
                Err(e) => e is Device,
            },
            r matches Err(e) ==> Self::revival_error(e),
    {
        let ghost a = *self;
        let ghost c = self.content();
        let ghost t = candidate@;
        let ghost d = Self::dims();
        let ghost good = a.sound() && tab_sound(c, t, d);
        let ghost run = tab_run(c, t, d);
        let ghost gs = run.rgroups;
        let ghost all = tab_rdels(c, t, d);
        proof {
            self.lemma_wf();
            if good {
                assert(is_run_of(run, c, t, d));
                assert(data_blocks_of(t) == Some(run.groups.len() as u64));
            }
        }
        let mut raw: [u8; BLOCK] = [0;BLOCK];
        let mut val: [u8; VAL_MAX] = [0;VAL_MAX];
        let first: u64 = match candidate.rdel_first() {
            Some(x) => x,
            None => {
                return Err(Error::CorruptBlock { id: candidate.first_block });
            },
        };
        let mut b: u32 = 0;
        while b < candidate.rdel_blocks
            invariant
                b <= candidate.rdel_blocks,
                a == *old(self),
                self.wf(),
                a.is_opened(),
                self.same_state(&a),
                Self::shape(),
                a.sound() ==> self.sound(),
                c == a.content(),
                t == candidate@,
                d == Self::dims(),
                good == (a.sound() && tab_sound(c, t, d)),
                run == tab_run(c, t, d),
                gs == run.rgroups,
                all == tab_rdels(c, t, d),
                good ==> is_run_of(run, c, t, d) && first == run.rdel_at(),
                good ==> forall|x: int, y: int|
                    0 <= x < b && 0 <= y < gs[x].len() ==> !a.rdel_revives(
                        t.id,
                        #[trigger] gs[x][y],
                    ),
            decreases candidate.rdel_blocks - b,
        {
            let id: u64 = match first.checked_add(b as u64) {
                Some(x) => x,
                None => {
                    return Err(Error::CorruptBlock { id: candidate.first_block });
                },
            };
            match self.wal.device().read_block(id, &mut raw) {
                Ok(()) => {},
                Err(e) => {
                    return Err(Error::Device(e));
                },
            }
            let ghost before = *self;
            let ghost rs: Option<Seq<RdelV>> = if good {
                Some(gs[b as int])
            } else {
                None
            };
            proof {
                if good {
                    assert(crate::sstable::format::rgroup_ok(gs[b as int], d.block));
                    law_rdel_block_reads_back(gs[b as int], d.block);
                    assert(c[(run.rdel_at() + b) as u64] == rdel_block(gs[b as int], d.block));
                    assert forall|y: int| 0 <= y < gs[b as int].len() implies
                        crate::compact::rdel_merge::rdel_within(
                        #[trigger] gs[b as int][y],
                        KEY_MAX,
                    ) by {
                        let k = lemma_flat_rdels_at(gs, b as int, y);
                        assert(crate::compact::rdel_merge::rdel_within(run.rdels()[k], KEY_MAX));
                    }
                    assert forall|y: int| 0 <= y < gs[b as int].len() implies a.rdel_revives(
                        t.id,
                        #[trigger] gs[b as int][y],
                    ) == self.rdel_revives(t.id, gs[b as int][y]) by {
                        Self::lemma_revives_same(&a, self, t.id, gs[b as int][y]);
                    }
                }
            }
            let got = self.check_rdel_block(candidate, &raw, id, &mut val, Ghost(rs));
            match got {
                Ok(hit) => {
                    if hit {
                        proof {
                            if good {
                                let y = choose|y: int|
                                    0 <= y < gs[b as int].len() && a.rdel_revives(
                                        t.id,
                                        #[trigger] gs[b as int][y],
                                    );
                                let k = lemma_flat_rdels_at(gs, b as int, y);
                                assert(a.rdel_revives(t.id, all[k]));
                            }
                        }
                        return Ok(true);
                    }
                },
                Err(e) => {
                    return Err(e);
                },
            }
            proof {
                if good {
                    assert forall|x: int, y: int|
                        0 <= x < b + 1 && 0 <= y < gs[x].len() implies !a.rdel_revives(
                        t.id,
                        #[trigger] gs[x][y],
                    ) by {
                        if x == b {
                            let v = gs[b as int];
                            assert(rs == Some(v));
                            assert(!before.some_revives(candidate.id, v));
                            Self::lemma_revives_same(&a, &before, t.id, v[y]);
                        }
                    }
                }
            }
            b = b + 1;
        }
        proof {
            if good {
                assert forall|i: int| 0 <= i < all.len() implies !a.rdel_revives(
                    t.id,
                    #[trigger] all[i],
                ) by {
                    let (x, y) = lemma_flat_rdels_from(gs, i);
                    assert(!a.rdel_revives(t.id, gs[x][y]));
                }
            }
        }
        Ok(false)
    }

    /// Tombstone-rule enforcement for [`Db::archive_commit`].
    ///
    /// Takes every tombstone in `candidate` and, for the live view and
    /// every registered snapshot watermark, compares the current read
    /// against a read excluding the candidate table. If the current view is
    /// deleted but the exclusion reveals a value, removing the candidate
    /// would resurrect that value and the archival is refused with
    /// [`Error::WouldResurrect`]. Pure reads; the database is untouched.
    pub(super) fn check_no_resurrection(&mut self, candidate: &TableRef<KEY_MAX>) -> (r: Result<
        (),
        Error<D::Error>,
    >)
        requires
            old(self).wf(),
            old(self).is_opened(),
        ensures
            final(self).wf(),
            final(self).same_state(old(self)),
            old(self).sound() ==> final(self).sound(),
            r matches Err(e) ==> Self::revival_error(e) || e == (Error::<D::Error>::WouldResurrect {
                table: candidate.id,
            }),
            old(self).sound() && tab_sound(
                old(self).content(),
                candidate@,
                Self::dims(),
            ) ==> match r {
                Ok(()) => !old(self).would_resurrect(candidate@),
                Err(e) => e is Device || (old(self).would_resurrect(candidate@) && e == (Error::<
                    D::Error,
                >::WouldResurrect { table: candidate.id })),
            },
    {
        let ghost a = *self;
        match self.check_points_no_resurrection(candidate) {
            Ok(b) => {
                if b {
                    return Err(Error::WouldResurrect { table: candidate.id });
                }
            },
            Err(e) => {
                return Err(e);
            },
        }
        let ghost mid = *self;
        let ghost rs = tab_rdels(a.content(), candidate@, Self::dims());
        proof {
            assert forall|i: int| 0 <= i < rs.len() implies a.rdel_revives(
                candidate.id,
                #[trigger] rs[i],
            ) == mid.rdel_revives(candidate.id, rs[i]) by {
                Self::lemma_revives_same(&a, &mid, candidate.id, rs[i]);
            }
        }
        match self.check_rdels_no_resurrection(candidate) {
            Ok(b) => {
                if b {
                    Err(Error::WouldResurrect { table: candidate.id })
                } else {
                    Ok(())
                }
            },
            Err(e) => Err(e),
        }
    }
}

/// A parsed list has as many tombstones as were asked for.
proof fn lemma_rdels_in_len(s: Seq<u8>, n: nat)
    ensures
        rdels_in(s, n) matches Some(rs) ==> rs.len() == n,
    decreases n,
{
    if n > 0 {
        match rdel_parse(s) {
            None => {},
            Some((_, len)) => {
                lemma_rdels_in_len(s.skip(len as int), (n - 1) as nat);
            },
        }
    }
}

/// Where a group's tombstone stands in the section.
proof fn lemma_flat_rdels_at(gs: Seq<Seq<RdelV>>, b: int, y: int) -> (k: int)
    requires
        0 <= b < gs.len(),
        0 <= y < gs[b].len(),
    ensures
        0 <= k < flat_rdels(gs).len(),
        flat_rdels(gs)[k] == gs[b][y],
    decreases gs.len(),
{
    let d = gs.drop_last();
    if b == gs.len() - 1 {
        flat_rdels(d).len() + y
    } else {
        assert(d[b] == gs[b]);
        lemma_flat_rdels_at(d, b, y)
    }
}

/// The group that a section's tombstone stands in.
proof fn lemma_flat_rdels_from(gs: Seq<Seq<RdelV>>, k: int) -> (r: (int, int))
    requires
        0 <= k < flat_rdels(gs).len(),
    ensures
        0 <= r.0 < gs.len(),
        0 <= r.1 < gs[r.0].len(),
        flat_rdels(gs)[k] == gs[r.0][r.1],
    decreases gs.len(),
{
    if gs.len() == 0 {
        (0, 0)
    } else {
        let d = gs.drop_last();
        let n = flat_rdels(d).len();
        if k >= n {
            (gs.len() - 1, k - n)
        } else {
            let (x, y) = lemma_flat_rdels_from(d, k);
            assert(d[x] == gs[x]);
            (x, y)
        }
    }
}

} // verus!

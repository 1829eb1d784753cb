//! Point reads: the memtable, then every table newest-first, highest
//! sequence wins.

use vstd::prelude::*;

use super::place::at;
use super::view::{
    acc_over, acc_with, best_seq, is_run_of, lemma_acc_concat, lemma_below_top, lemma_mem_cover,
    lemma_outside_bounds, mem_acc, read_order, read_spec, tab_recs, tab_rdels, tab_run, tab_sound,
    AccV, DimsV,
};
use super::{cached_ok, ids_ok, images_live, tables_ok, Db};
use crate::bytes::{copy_into, spliced};
use crate::cache::{BlockCache, CachePort};
use crate::compact::rdel_merge::{cover_of, lemma_cover_of};
use crate::compact::sift::{first_at, lemma_first_at};
use crate::device::BlockDevice;
use crate::error::Error;
use crate::manifest::{data_blocks_of, tab_covers, TableRef};
use crate::manifest_format::TabV;
use crate::memtable::{is_hit, Rec};
use crate::sstable::capacity::rdels_of;
use crate::sstable::format::{crc_ok, ent_parse, foot_of, index_of, logical_of};
use crate::sstable::reader::{
    adds_only, as_hit, coherent, covering_rdel_seq_in, found_is, found_stored, gated, index_intact,
    lemma_adds_trans, lemma_one_hit, looked_up, spans, still_coherent, Lookup, TableReader,
};
use crate::sstable::search::{hit_is, hit_stored};
use crate::sstable::table::{
    law_section_reads_back, law_table_reads_back, rdel_best, section_list,
};

verus! {

/// Best hit seen so far by a read: the highest-sequence lookup result. When
/// `Value`, the winning bytes are staged.
#[derive(Clone, Copy)]
enum Best {
    /// No hit yet.
    Missing,
    /// A tombstone beat every value so far.
    Tombstone,
    /// A value won; holds its byte length.
    Value(usize),
}

/// Accumulator of a multi-table read: the winning staged value bytes plus
/// the sequence that won them. Table lookups copy into a per-table buffer
/// first, and only a winning hit is promoted into `stage`, so a losing hit
/// can never clobber the winner.
struct ReadAcc<const VAL_MAX: usize> {
    stage: [u8; VAL_MAX],
    best: Best,
    best_seq: u64,
    /// Expiry tick of the winning value; 0 = no expiry. Checked against
    /// the caller's `now` before the value is returned.
    best_expire_at: u64,
    /// Highest range-tombstone sequence covering the key at/below the
    /// snapshot, across the memtable and every considered table. Beats
    /// the point winner when strictly newer.
    cover_seq: u64,
}

/// Two covering sequences say the same of a version of sequence `seq`.
spec fn covers_alike(x: u64, y: u64, seq: u64) -> bool {
    x == y || (x <= seq && y <= seq)
}

/// The entry at `off` of the device's block `id`, where the block is intact
/// and holds one.
pub open spec fn entry_at(c: Map<u64, Seq<u8>>, id: u64, off: int) -> Option<Rec> {
    if crc_ok(c[id]) && logical_of(c[id]) is Some && 0 <= off <= logical_of(c[id])->0.len() {
        match ent_parse(logical_of(c[id])->0.skip(off)) {
            Some((e, _)) => Some(e),
            None => None,
        }
    } else {
        None
    }
}

/// Version `e` is in the memtable, or in an intact block of the device.
pub open spec fn stored_version(mem: Seq<Rec>, c: Map<u64, Seq<u8>>, e: Rec) -> bool {
    ||| mem.contains(e) && !e.range_del
    ||| exists|id: u64, off: int| #[trigger] entry_at(c, id, off) == Some(e)
}

/// What a read of `key` looks at in table `t` is intact: its block range,
/// its footer, its index where the bloom filter does not answer, and its
/// range tombstones.
pub open spec fn readable(c: Map<u64, Seq<u8>>, t: TabV, d: DimsV, key: Seq<u8>) -> bool {
    &&& t.block_count > 0
    &&& t.first_block + t.block_count <= u64::MAX
    &&& data_blocks_of(t) is Some
    &&& foot_of(c[(t.first_block + t.block_count - 1) as u64]) matches Some(f) && {
        &&& f.k != 0
        &&& gated(c, f, key, d.bloom) || index_intact(c, f)
        &&& section_list(
            c,
            (t.first_block + data_blocks_of(t)->0) as u64,
            f.rdel_blocks as nat,
        ) is Ok
    }
}

/// The first `n` bytes of a buffer, if any were given.
pub open spec fn front(buf: Seq<u8>, n: Option<usize>) -> Option<Seq<u8>> {
    match n {
        Some(k) => Some(buf.take(k as int)),
        None => None,
    }
}

/// The sequence of a version, zero for none.
pub open spec fn won_seq(w: Option<Rec>) -> u64 {
    match w {
        Some(e) => e.seq,
        None => 0,
    }
}

/// A read of `key` that gave `out` went by version `w`, in an intact or
/// damaged database alike: `w` is stored, `out` is its value or nothing, and
/// every table that could hold a newer version was intact where the read
/// looked.
pub open spec fn read_from(
    mem: Seq<Rec>,
    c: Map<u64, Seq<u8>>,
    levels: Seq<Seq<TabV>>,
    d: DimsV,
    key: Seq<u8>,
    max_seq: u64,
    now: u64,
    exclude: Option<u32>,
    w: Option<Rec>,
    out: Option<Seq<u8>>,
) -> bool {
    &&& w matches Some(e) ==> stored_version(mem, c, e) && e.key == key && e.seq <= max_seq
    &&& out matches Some(v) ==> (w matches Some(e) && !e.tombstone && v == e.val && !(e.expire_at
        != 0 && e.expire_at <= now))
    &&& forall|l: int, i: int|
        at(levels, l, i) && tab_covers(#[trigger] levels[l][i], key) && exclude != Some(
            levels[l][i].id,
        ) && levels[l][i].max_seq > won_seq(w) ==> readable(c, levels[l][i], d, key)
}

/// The cache's images of live tables are the device's blocks.
pub open spec fn cache_true(
    images: Map<(u32, u64), Seq<u8>>,
    c: Map<u64, Seq<u8>>,
    levels: Seq<Seq<TabV>>,
) -> bool {
    forall|l: int, i: int| at(levels, l, i) ==> coherent(images, c, (#[trigger] levels[l][i]).id)
}

impl<const VAL_MAX: usize> ReadAcc<VAL_MAX> {
    /// The accumulator holds version `w`, a stored one.
    spec fn went_by(
        &self,
        mem: Seq<Rec>,
        c: Map<u64, Seq<u8>>,
        key: Seq<u8>,
        max_seq: u64,
        w: Option<Rec>,
    ) -> bool {
        &&& self.best_seq == won_seq(w)
        &&& match w {
            None => self.best is Missing,
            Some(e) => {
                &&& stored_version(mem, c, e)
                &&& e.key == key
                &&& e.seq <= max_seq
                &&& !(self.best is Missing)
                &&& self.best matches Best::Value(n) ==> {
                    &&& !e.tombstone
                    &&& e.val == self.stage@.take(n as int)
                    &&& self.best_expire_at == e.expire_at
                }
            },
        }
    }

    /// The accumulator stands for `a`.
    spec fn alike(&self, a: AccV) -> bool {
        &&& self.best_seq == best_seq(a.best)
        &&& match a.best {
            None => self.best is Missing,
            Some(e) => if e.tombstone {
                self.best is Tombstone
            } else {
                &&& self.best == Best::Value(e.val.len() as usize)
                &&& e.val.len() <= VAL_MAX
                &&& self.stage@.take(e.val.len() as int) == e.val
                &&& self.best_expire_at == e.expire_at
            },
        }
        &&& covers_alike(self.cover_seq, a.cover, self.best_seq)
    }

    /// The staged length is within the buffer.
    spec fn wf(&self) -> bool {
        self.best matches Best::Value(n) ==> n <= VAL_MAX
    }

    fn new() -> (r: Self)
        ensures
            r.wf(),
            r.best is Missing,
            r.best_seq == 0,
            r.cover_seq == 0,
    {
        ReadAcc {
            stage: [0u8;VAL_MAX],
            best: Best::Missing,
            best_seq: 0,
            best_expire_at: 0,
            cover_seq: 0,
        }
    }

    /// Promotes a value into the staging buffer.
    fn stage_value(&mut self, val: &[u8], seq: u64, expire_at: u64)
        requires
            val@.len() <= VAL_MAX,
        ensures
            final(self).wf(),
            final(self).best == Best::Value(val@.len() as usize),
            final(self).best_seq == seq,
            final(self).best_expire_at == expire_at,
            final(self).cover_seq == old(self).cover_seq,
            final(self).stage@.take(val@.len() as int) == val@,
    {
        proof {
            reveal(spliced);
        }
        copy_into(&mut self.stage, 0, val);
        self.best = Best::Value(val.len());
        self.best_seq = seq;
        self.best_expire_at = expire_at;
        assert(self.stage@.take(val@.len() as int) =~= val@);
    }
}

/// Whether a range tombstone at or below `max_seq` and newer than `above`
/// covers `key`, among the tombstones `rs`.
pub open spec fn hides(
    rs: Seq<crate::sstable::format::RdelV>,
    key: Seq<u8>,
    max_seq: u64,
    above: u64,
) -> bool {
    match cover_of(rs, key, max_seq) {
        Some(q) => q > above,
        None => false,
    }
}

/// Whether a range tombstone at or below `max_seq` and newer than `above`
/// covers `key`, in the memtable or any table.
pub open spec fn hidden(
    mem: Seq<crate::memtable::Rec>,
    c: Map<u64, Seq<u8>>,
    levels: Seq<Seq<TabV>>,
    d: DimsV,
    key: Seq<u8>,
    max_seq: u64,
    above: u64,
) -> bool {
    ||| hides(rdels_of(mem), key, max_seq, above)
    ||| exists|l: int, i: int|
        at(levels, l, i) && hides(tab_rdels(c, #[trigger] levels[l][i], d), key, max_seq, above)
}

/// Reading a live table added only images of its blocks.
pub proof fn lemma_images_added(
    before: Map<(u32, u64), Seq<u8>>,
    after: Map<(u32, u64), Seq<u8>>,
    c: Map<u64, Seq<u8>>,
    levels: Seq<Seq<TabV>>,
    next_id: u32,
    d: DimsV,
    l: int,
    i: int,
)
    requires
        tables_ok(before, c, levels, d),
        images_live(before, levels),
        ids_ok(levels, next_id),
        at(levels, l, i),
        adds_only(
            before,
            after,
            c,
            levels[l][i].id,
            levels[l][i].first_block as int,
            levels[l][i].first_block + levels[l][i].block_count,
        ),
    ensures
        tables_ok(after, c, levels, d),
        images_live(after, levels),
{
    let t = levels[l][i];
    assert forall|m: int, j: int| at(levels, m, j) implies tab_sound(c, #[trigger] levels[m][j], d)
        && cached_ok(after, c, levels[m][j]) by {
        let u = levels[m][j];
        assert(cached_ok(before, c, u));
        assert forall|b: u64| #[trigger] after.dom().contains((u.id, b)) implies u.first_block <= b
            < u.first_block + u.block_count && after[(u.id, b)] == c[b] by {
            if before.dom().contains((u.id, b)) && after[(u.id, b)] == before[(u.id, b)] {
            } else {
                assert(u.id == t.id);
            }
        }
    }
    assert forall|k: (u32, u64)| #[trigger] after.dom().contains(k) implies super::live_id(
        levels,
        k.0,
    ) by {
        if before.dom().contains(k) {
        } else {
            assert(k.0 == levels[l][i].id);
        }
    }
}

/// What the blocks of an intact table hold.
pub proof fn lemma_sound_table(c: Map<u64, Seq<u8>>, t: TabV, d: DimsV)
    requires
        tab_sound(c, t, d),
    ensures
        ({
            let run = tab_run(c, t, d);
            let nd = t.block_count - 3 - t.rdel_blocks;
            &&& nd >= 0
            &&& t.first_block + t.block_count <= u64::MAX
            &&& crate::sstable::format::foot_of(c[(t.first_block + t.block_count - 1) as u64])
                == Some(run.foot())
            &&& run.foot().k != 0
            &&& run.foot().rdel_blocks == t.rdel_blocks
            &&& run.foot().index_block == t.first_block + t.block_count - 2
            &&& crate::sstable::table::stored_wf(c, run.foot(), d.block, d.bloom)
            &&& crate::sstable::table::stored_recs(c, run.foot().index_block) == tab_recs(c, t, d)
            &&& crate::sstable::table::section_list(
                c,
                (t.first_block + nd) as u64,
                t.rdel_blocks as nat,
            ) == Ok::<Seq<crate::sstable::format::RdelV>, u64>(tab_rdels(c, t, d))
            &&& spans(
                c,
                run.foot(),
                t.first_block as int,
                t.first_block + t.block_count,
            )
        }),
{
    let run = tab_run(c, t, d);
    assert(is_run_of(run, c, t, d));
    law_table_reads_back(run, c, d.block, d.bloom);
    law_section_reads_back(c, run.rdel_at() as u64, run.rgroups, d.block);
    assert(run.footer_at() == t.first_block + t.block_count - 1);
    let l = index_of(run.groups, run.base);
    assert(l.len() == run.groups.len());
    assert forall|i: int| 0 <= i < l.len() implies t.first_block <= (#[trigger] l[i]).1
        < t.first_block + t.block_count by {}
}

impl<
    D: BlockDevice,
    const BLOCK: usize,
    const KEY_MAX: usize,
    const VAL_MAX: usize,
    const CAP: usize,
    const ARENA: usize,
    const LEVELS: usize,
    const TABLES: usize,
    const BLOOM_BYTES: usize,
    const CACHE: usize,
> Db<D, BLOCK, KEY_MAX, VAL_MAX, CAP, ARENA, LEVELS, TABLES, BLOOM_BYTES, CACHE> {
    /// What a read of `key` returns, where the value is `v`: its length,
    /// with the value in front of the buffer, or the length it needs.
    /// Nothing else writes to the buffer.
    pub open spec fn answered(
        v: Option<Seq<u8>>,
        r: Result<Option<usize>, Error<D::Error>>,
        buf0: Seq<u8>,
        buf: Seq<u8>,
    ) -> bool {
        match r {
            Ok(None) => v is None && buf == buf0,
            Ok(Some(n)) => {
                &&& v is Some
                &&& n == v->0.len()
                &&& n <= buf0.len()
                &&& buf == v->0 + buf0.skip(n as int)
            },
            Err(Error::BufferTooSmall { need }) => {
                &&& v is Some
                &&& need == v->0.len()
                &&& need > buf0.len()
                &&& buf == buf0
            },
            Err(e) => e is Device && buf == buf0,
        }
    }

    /// A read is owed an answer: without a value it finds nothing; a value
    /// that fits comes whole in front of the buffer, with its length; a
    /// longer one is refused with the length that it needs. Only the device
    /// can fail it, and what it does not fill of the buffer stays.
    pub proof fn law_read_answers(
        v: Option<Seq<u8>>,
        r: Result<Option<usize>, Error<D::Error>>,
        buf0: Seq<u8>,
        buf: Seq<u8>,
        i: int,
    )
        requires
            Self::answered(v, r, buf0, buf),
            0 <= i < buf0.len(),
        ensures
            buf.len() == buf0.len(),
            (r matches Err(e) && e is Device) || match v {
                None => r == Ok::<Option<usize>, Error<D::Error>>(None),
                Some(x) => if x.len() <= buf0.len() {
                    r matches Ok(Some(n)) && n == x.len()
                } else {
                    r matches Err(Error::BufferTooSmall { need }) && need == x.len()
                },
            },
            buf[i] == (if r matches Ok(Some(n)) && i < n {
                v->0[i]
            } else {
                buf0[i]
            }),
    {
    }

    /// The errors a read of a damaged table ends with.
    pub open spec fn read_error(e: Error<D::Error>) -> bool {
        e is BufferTooSmall || e is CorruptBlock || e is CorruptManifest || e is Device
    }

    /// No table is live.
    pub open spec fn bare(&self) -> bool {
        forall|l: int|
            0 <= l < self.man().levels.len() ==> (#[trigger] self.man().levels[l]).len() == 0
    }

    /// What a read does to an intact or damaged database alike, where the
    /// cache is true: what it gives is a stored version's value, and it
    /// gives nothing only where every table that it had to look at was
    /// intact there. Without tables it is exact and needs no I/O.
    pub open spec fn read_told(
        a: &Self,
        b: &Self,
        key: Seq<u8>,
        max_seq: u64,
        now: u64,
        exclude: Option<u32>,
        r: Result<Option<usize>, Error<D::Error>>,
        buf0: Seq<u8>,
        buf: Seq<u8>,
    ) -> bool {
        let levels = a.man().levels;
        &&& cache_true(a.images(), a.content(), levels) ==> {
            &&& cache_true(b.images(), a.content(), levels)
            &&& r matches Ok(n) ==> exists|w: Option<Rec>| #[trigger]
                read_from(
                    a.mem(),
                    a.content(),
                    levels,
                    Self::dims(),
                    key,
                    max_seq,
                    now,
                    exclude,
                    w,
                    front(buf, n),
                )
        }
        &&& a.bare() ==> {
            &&& !(r matches Err(e) && e is Device)
            &&& Self::answered(a.value_at(key, max_seq, now), r, buf0, buf)
        }
    }

    /// Reads `key` into `val_buf`: memtable first, then level 0 newest table
    /// first, then deeper levels in order. This is
    /// [`get_at`](Db::get_at) with `max_seq = u64::MAX`: the latest view.
    ///
    /// Returns `Ok(None)` for missing keys and tombstones. Never truncates:
    /// an undersized buffer yields [`Error::BufferTooSmall`] with the
    /// required length: the length of the *winning* value, even when an
    /// older shadowed version would have fit.
    ///
    /// # Errors
    ///
    /// [`Error::NotOpen`] before [`open`](Db::open),
    /// [`Error::BufferTooSmall`] when `val_buf` is smaller than the winning
    /// value, [`Error::CorruptManifest`] when a table's block range is
    /// malformed, [`Error::CorruptBlock`] when a table's index or footer
    /// fails verification, or [`Error::Device`] on I/O failure.
    pub fn get(&mut self, key: &[u8], val_buf: &mut [u8]) -> (r: Result<
        Option<usize>,
        Error<D::Error>,
    >)
        requires
            old(self).wf(),
        ensures
            final(self).wf(),
            final(self).same_state(old(self)),
            !old(self).is_opened() <==> r == Err::<Option<usize>, Error<D::Error>>(Error::NotOpen),
            old(self).is_opened() ==> (r matches Err(e) ==> Self::read_error(e)),
            old(self).is_opened() ==> Self::read_told(
                old(self),
                final(self),
                key@,
                u64::MAX,
                0,
                None,
                r,
                old(val_buf)@,
                final(val_buf)@,
            ),
            old(self).sound() ==> {
                &&& final(self).sound()
                &&& Self::answered(
                    old(self).value_at(key@, u64::MAX, 0),
                    r,
                    old(val_buf)@,
                    final(val_buf)@,
                )
            },
    {
        self.get_at_with_time(key, val_buf, u64::MAX, 0)
    }

    /// Reads `key` into `val_buf` as of a snapshot: like [`get`](Db::get),
    /// but only mutations with `seq <= max_seq` are visible. Newer versions
    /// (including newer tombstones) are invisible, so an older value, or
    /// a missing key, can correctly win. Pass a watermark from
    /// [`snapshot`](Db::snapshot) for a pinned read, or `u64::MAX` for the
    /// latest view.
    ///
    /// # Errors
    ///
    /// Same as [`get`](Db::get).
    pub fn get_at(&mut self, key: &[u8], val_buf: &mut [u8], max_seq: u64) -> (r: Result<
        Option<usize>,
        Error<D::Error>,
    >)
        requires
            old(self).wf(),
        ensures
            final(self).wf(),
            final(self).same_state(old(self)),
            !old(self).is_opened() <==> r == Err::<Option<usize>, Error<D::Error>>(Error::NotOpen),
            old(self).is_opened() ==> (r matches Err(e) ==> Self::read_error(e)),
            old(self).is_opened() ==> Self::read_told(
                old(self),
                final(self),
                key@,
                max_seq,
                0,
                None,
                r,
                old(val_buf)@,
                final(val_buf)@,
            ),
            old(self).sound() ==> {
                &&& final(self).sound()
                &&& Self::answered(
                    old(self).value_at(key@, max_seq, 0),
                    r,
                    old(val_buf)@,
                    final(val_buf)@,
                )
            },
    {
        self.get_at_with_time(key, val_buf, max_seq, 0)
    }

    /// Timed read: like [`get`](Db::get), but values whose `expire_at` is
    /// nonzero and `<= now` are suppressed: they read as missing (a
    /// newer live version still wins; an expired winner never falls
    /// through to an older version). The database owns no clock: `now` is
    /// the caller's tick, compared against the absolute `expire_at` stored
    /// by [`put_with_ttl`](Db::put_with_ttl).
    ///
    /// # Errors
    ///
    /// Same as [`get`](Db::get).
    pub fn get_with_time(&mut self, key: &[u8], val_buf: &mut [u8], now: u64) -> (r: Result<
        Option<usize>,
        Error<D::Error>,
    >)
        requires
            old(self).wf(),
        ensures
            final(self).wf(),
            final(self).same_state(old(self)),
            !old(self).is_opened() <==> r == Err::<Option<usize>, Error<D::Error>>(Error::NotOpen),
            old(self).is_opened() ==> (r matches Err(e) ==> Self::read_error(e)),
            old(self).is_opened() ==> Self::read_told(
                old(self),
                final(self),
                key@,
                u64::MAX,
                now,
                None,
                r,
                old(val_buf)@,
                final(val_buf)@,
            ),
            old(self).sound() ==> {
                &&& final(self).sound()
                &&& Self::answered(
                    old(self).value_at(key@, u64::MAX, now),
                    r,
                    old(val_buf)@,
                    final(val_buf)@,
                )
            },
    {
        self.get_at_with_time(key, val_buf, u64::MAX, now)
    }

    /// Timed read: like [`get_at`](Db::get_at), but values whose
    /// `expire_at` is nonzero and `<= now` are suppressed: they read as
    /// missing (a newer live version still wins; an expired winner never
    /// falls through to an older version). Callers without a clock pass
    /// `now = 0`, which is what [`get`](Db::get) and
    /// [`get_at`](Db::get_at) do.
    ///
    /// # Errors
    ///
    /// Same as [`get_at`](Db::get_at).
    pub fn get_at_with_time(
        &mut self,
        key: &[u8],
        val_buf: &mut [u8],
        max_seq: u64,
        now: u64,
    ) -> (r: Result<Option<usize>, Error<D::Error>>)
        requires
            old(self).wf(),
        ensures
            final(self).wf(),
            final(self).same_state(old(self)),
            !old(self).is_opened() <==> r == Err::<Option<usize>, Error<D::Error>>(Error::NotOpen),
            old(self).is_opened() ==> (r matches Err(e) ==> Self::read_error(e)),
            old(self).is_opened() ==> Self::read_told(
                old(self),
                final(self),
                key@,
                max_seq,
                now,
                None,
                r,
                old(val_buf)@,
                final(val_buf)@,
            ),
            old(self).sound() ==> {
                &&& final(self).sound()
                &&& Self::answered(
                    old(self).value_at(key@, max_seq, now),
                    r,
                    old(val_buf)@,
                    final(val_buf)@,
                )
            },
    {
        match self.ensure_open() {
            Ok(()) => {},
            Err(e) => {
                return Err(e);
            },
        }
        self.read_point(key, val_buf, max_seq, now, None)
    }

    /// The point-read rule, shared by every `get` variant and the archive
    /// resurrection test: the memtable, then level 0 newest table first,
    /// then deeper levels; the highest sequence at or below `max_seq`
    /// wins, a strictly newer covering range tombstone hides it, and a
    /// winner expired at `now` reads as missing (`now = 0`: nothing
    /// expires). `exclude` names one table to leave out (the archival
    /// candidate), or `None`.
    ///
    /// # Errors
    ///
    /// As [`get`](Db::get).
    pub(super) fn read_point(
        &mut self,
        key: &[u8],
        val_buf: &mut [u8],
        max_seq: u64,
        now: u64,
        exclude: Option<u32>,
    ) -> (r: Result<Option<usize>, Error<D::Error>>)
        requires
            old(self).wf(),
            old(self).is_opened(),
        ensures
            final(self).wf(),
            final(self).same_state(old(self)),
            r matches Err(e) ==> Self::read_error(e),
            exclude is None ==> Self::read_told(
                old(self),
                final(self),
                key@,
                max_seq,
                now,
                exclude,
                r,
                old(val_buf)@,
                final(val_buf)@,
            ),
            old(self).sound() ==> {
                &&& final(self).sound()
                &&& Self::answered(
                    read_spec(
                        old(self).mem(),
                        old(self).content(),
                        old(self).man().levels,
                        Self::dims(),
                        key@,
                        max_seq,
                        now,
                        exclude,
                    ),
                    r,
                    old(val_buf)@,
                    final(val_buf)@,
                )
            },
    {
        proof {
            reveal(Db::tidy);
        }
        proof {
            self.lemma_wf();
            self.manifest.lemma_wf();
        }
        let ghost good = self.sound();
        let ghost c = self.content();
        let ghost levels = self.man().levels;
        let ghost next_id = self.man().next_table_id;
        let ghost d = Self::dims();
        let ghost a0 = mem_acc(self.mem(), key@, max_seq);
        let mut acc: ReadAcc<VAL_MAX> = self.mem_acc_of(key, max_seq);
        let ghost mem = self.mem();
        let ghost known = cache_true(self.images(), c, levels);
        let ghost bare = self.bare();
        let mut li: usize = 0;
        while li < LEVELS
            invariant
                mem == old(self).mem(),
                known == cache_true(old(self).images(), c, levels),
                bare == old(self).bare(),
                a0 == mem_acc(mem, key@, max_seq),
                bare ==> acc.alike(a0),
                known ==> {
                    &&& cache_true(self.images(), c, levels)
                    &&& exists|w: Option<Rec>| #[trigger] acc.went_by(mem, c, key@, max_seq, w)
                    &&& forall|l: int, i: int|
                        at(levels, l, i) && l < li && tab_covers(#[trigger] levels[l][i], key@)
                            && exclude != Some(levels[l][i].id) && levels[l][i].max_seq
                            > acc.best_seq ==> readable(c, levels[l][i], d, key@)
                },
                self.wf(),
                self.is_opened(),
                *self == (Db {
                    cache: self.cache,
                    get_scratch: self.get_scratch,
                    decomp_scratch: self.decomp_scratch,
                    ..*old(self)
                }),
                good == old(self).sound(),
                c == old(self).content(),
                levels == self.man().levels,
                levels.len() == LEVELS,
                next_id == self.man().next_table_id,
                d == Self::dims(),
                li <= LEVELS,
                acc.wf(),
                good ==> {
                    &&& ids_ok(levels, next_id)
                    &&& tables_ok(self.images(), c, levels, d)
                    &&& images_live(self.images(), levels)
                    &&& acc.alike(
                        acc_over(
                            a0,
                            c,
                            read_order(levels.take(li as int)),
                            d,
                            key@,
                            max_seq,
                            exclude,
                        ),
                    )
                },
            decreases LEVELS - li,
        {
            proof {
                reveal(Db::tidy);
            }
            let ghost a1 = acc_over(
                a0,
                c,
                read_order(levels.take(li as int)),
                d,
                key@,
                max_seq,
                exclude,
            );
            let ghost images0 = self.images();
            let ghost before = *self;
            let ghost acc0 = acc;
            let levelled = Self::read_level(
                &self.wal,
                &self.manifest,
                li,
                &mut self.cache,
                key,
                max_seq,
                exclude,
                &mut self.get_scratch,
                &mut self.decomp_scratch,
                &mut acc,
            );
            proof {
                Self::lemma_buffers_kept(&before, self);
                if bare {
                    assert(levels[li as int].len() == 0);
                }
            }
            match levelled {
                Ok(()) => {},
                Err(e) => {
                    return Err(e);
                },
            }
            proof {
                let ord = level_order(levels, li as int);
                lemma_order_step(levels, li as int);
                lemma_acc_concat(
                    a0,
                    c,
                    read_order(levels.take(li as int)),
                    ord,
                    d,
                    key@,
                    max_seq,
                    exclude,
                );
            }
            li = li + 1;
        }
        proof {
            assert(levels.take(LEVELS as int) =~= levels);
            if bare && super::view::read_order(levels).len() > 0 {
                let (x, y) = super::place::lemma_read_order(levels, 0);
            }
        }
        let ghost w = choose|w: Option<Rec>| #[trigger] acc.went_by(mem, c, key@, max_seq, w);
        proof {
            if known {
                assert(read_from(
                    mem,
                    c,
                    levels,
                    d,
                    key@,
                    max_seq,
                    now,
                    exclude,
                    w,
                    front(val_buf@, None),
                ));
            }
        }
        match acc.best {
            Best::Missing => Ok(None),
            Best::Tombstone => Ok(None),
            Best::Value(len) => {
                // A covering range tombstone newer than the point winner
                // hides the key; an expired winner reads as missing and
                // never falls through to an older version.
                if acc.cover_seq > acc.best_seq {
                    return Ok(None);
                }
                if acc.best_expire_at != 0 && acc.best_expire_at <= now {
                    return Ok(None);
                }
                if len > val_buf.len() {
                    return Err(Error::BufferTooSmall { need: len });
                }
                let val = vstd::slice::slice_subrange(vstd::array::array_as_slice(&acc.stage), 0, len);
                copy_into(val_buf, 0, val);
                proof {
                    reveal(spliced);
                    assert(val_buf@ =~= acc.stage@.take(len as int) + old(val_buf)@.skip(len as int));
                    assert(val_buf@.take(len as int) =~= acc.stage@.take(len as int));
                    if known {
                        assert(read_from(
                            mem,
                            c,
                            levels,
                            d,
                            key@,
                            max_seq,
                            now,
                            exclude,
                            w,
                            front(val_buf@, Some(len)),
                        ));
                    }
                }
                Ok(Some(len))
            },
        }
    }

    /// Nothing but the cache and the buffers changed.
    pub(super) proof fn lemma_buffers_kept(a: &Self, b: &Self)
        requires
            a.wf(),
            b.cache.port_wf(),
            *b == (Db {
                cache: b.cache,
                get_scratch: b.get_scratch,
                decomp_scratch: b.decomp_scratch,
                ..*a
            }),
        ensures
            b.wf(),
            b.same_state(a),
    {
        if a.is_opened() {
            assert(a.open_wf());
            Self::lemma_open_kept(a, b);
        }
    }

    /// What the memtable holds of `key` at `max_seq`.
    fn mem_acc_of(&self, key: &[u8], max_seq: u64) -> (acc: ReadAcc<VAL_MAX>)
        requires
            self.wf(),
        ensures
            acc.wf(),
            acc.alike(mem_acc(self.mem(), key@, max_seq)),
            exists|w: Option<Rec>| #[trigger]
                acc.went_by(self.mem(), self.content(), key@, max_seq, w),
    {
        let mut acc: ReadAcc<VAL_MAX> = ReadAcc::new();
        let ghost mem = self.mem();
        let ghost hit = first_at(mem, key@, max_seq);
        proof {
            self.table.lemma_wf();
            lemma_first_at(mem, key@, max_seq);
        }
        match self.table.get_at(key, max_seq) {
            Some(entry) => {
                // The memtable holds the newest mutations; `get_at` already
                // selected the newest version at or below the snapshot, and
                // skips range-tombstone slots (they are not versions of
                // `key`).
                proof {
                    let i = choose|i: int|
                        {
                            &&& #[trigger] is_hit(mem, key@, max_seq, i)
                            &&& entry.val@ == mem[i].val
                            &&& entry.seq == mem[i].seq
                            &&& entry.tombstone == mem[i].tombstone
                            &&& entry.expire_at == mem[i].expire_at
                        };
                    let j = choose|j: int| #[trigger]
                        is_hit(mem, key@, max_seq, j) && Some(mem[j]) == first_at(
                            mem,
                            key@,
                            max_seq,
                        );
                    lemma_one_hit(mem, key@, max_seq, i, j);
                }
                if entry.tombstone {
                    acc.best_seq = entry.seq;
                    acc.best = Best::Tombstone;
                } else {
                    acc.stage_value(entry.val, entry.seq, entry.expire_at);
                }
            },
            None => {
                assert(first_at(mem, key@, max_seq) is None);
            },
        }
        // A memtable range tombstone covering `key` beats any older point
        // version; the per-table probes happen inside `consider_table`.
        let q = self.table.max_covering_rdel(key, max_seq);
        proof {
            lemma_mem_cover(mem, key@, max_seq, q);
        }
        match q {
            Some(q) => {
                acc.cover_seq = q;
            },
            None => {},
        }
        proof {
            assert(acc.went_by(mem, self.content(), key@, max_seq, hit));
        }
        acc
    }

    /// Considers the tables of one level, level 0 newest first: its tables
    /// overlap, and newer tables hold higher sequence numbers. In deeper
    /// levels highest-seq-wins keeps the result exact however tables are
    /// placed.
    fn read_level(
        wal: &crate::wal::WalWriter<D, BLOCK>,
        manifest: &crate::manifest::Manifest<LEVELS, TABLES, KEY_MAX>,
        li: usize,
        cache: &mut BlockCache<BLOCK, CACHE>,
        key: &[u8],
        max_seq: u64,
        exclude: Option<u32>,
        scratch: &mut [u8; BLOCK],
        decomp: &mut [u8; BLOCK],
        acc: &mut ReadAcc<VAL_MAX>,
    ) -> (r: Result<(), Error<D::Error>>)
        requires
            Self::shape(),
            manifest.wf(),
            old(cache).port_wf(),
            old(acc).wf(),
            li < LEVELS,
        ensures
            final(cache).port_wf(),
            final(acc).wf(),
            r matches Err(e) ==> Self::read_error(e),
            manifest@.levels[li as int].len() == 0 ==> r is Ok && *final(acc) == *old(acc),
            old(acc).best_seq <= final(acc).best_seq,
            cache_true(old(cache).images(), wal.content(), manifest@.levels) ==> cache_true(
                final(cache).images(),
                wal.content(),
                manifest@.levels,
            ),
            cache_true(old(cache).images(), wal.content(), manifest@.levels) && r is Ok ==> {
                &&& forall|mem: Seq<Rec>, w: Option<Rec>| #[trigger]
                    old(acc).went_by(mem, wal.content(), key@, max_seq, w) ==> exists|
                        v: Option<Rec>,
                    | #[trigger] final(acc).went_by(mem, wal.content(), key@, max_seq, v)
                &&& forall|i: int|
                    0 <= i < manifest@.levels[li as int].len() && tab_covers(
                        #[trigger] manifest@.levels[li as int][i],
                        key@,
                    ) && exclude != Some(manifest@.levels[li as int][i].id)
                        && manifest@.levels[li as int][i].max_seq > final(acc).best_seq
                        ==> readable(
                        wal.content(),
                        manifest@.levels[li as int][i],
                        Self::dims(),
                        key@,
                    )
            },
            ({
                let c = wal.content();
                let levels = manifest@.levels;
                tables_ok(old(cache).images(), c, levels, Self::dims()) && images_live(
                    old(cache).images(),
                    manifest@.levels,
                ) && ids_ok(levels, manifest@.next_table_id) ==> {
                    &&& tables_ok(final(cache).images(), c, levels, Self::dims())
                    &&& images_live(final(cache).images(), manifest@.levels)
                    &&& r matches Err(e) ==> e is Device
                    &&& r is Ok ==> forall|a: AccV| #[trigger]
                        old(acc).alike(a) ==> final(acc).alike(
                            acc_over(
                                a,
                                c,
                                level_order(levels, li as int),
                                Self::dims(),
                                key@,
                                max_seq,
                                exclude,
                            ),
                        )
                }
            }),
    {
        let ghost c = wal.content();
        let ghost levels = manifest@.levels;
        let ghost next_id = manifest@.next_table_id;
        let ghost d = Self::dims();
        let ghost good = tables_ok(cache.images(), c, levels, d) && images_live(
            cache.images(),
            levels,
        ) && ids_ok(levels, next_id);
        let ghost ord = level_order(levels, li as int);
        proof {
            manifest.lemma_wf();
        }
        let tables: &[TableRef<KEY_MAX>] = match manifest.level(li) {
            Some(ts) => ts,
            None => {
                return Ok(());
            },
        };
        let n: usize = tables.len();
        let mut i: usize = 0;
        let ghost known = cache_true(cache.images(), c, levels);
        proof {
            assert(ord.take(0) =~= Seq::<TabV>::empty());
        }
        while i < n
            invariant
                n == levels[li as int].len(),
                known == cache_true(old(cache).images(), c, levels),
                n == 0 ==> *acc == *old(acc),
                old(acc).best_seq <= acc.best_seq,
                known ==> {
                    &&& cache_true(cache.images(), c, levels)
                    &&& forall|mem: Seq<Rec>, w: Option<Rec>| #[trigger]
                        old(acc).went_by(mem, c, key@, max_seq, w) ==> exists|v: Option<Rec>|
                            #[trigger] acc.went_by(mem, c, key@, max_seq, v)
                    &&& forall|j: int|
                        0 <= j < n && (if li == 0 {
                            j >= n - i
                        } else {
                            j < i
                        }) && tab_covers(#[trigger] levels[li as int][j], key@) && exclude != Some(
                            levels[li as int][j].id,
                        ) && levels[li as int][j].max_seq > acc.best_seq ==> readable(
                            c,
                            levels[li as int][j],
                            d,
                            key@,
                        )
                },
                Self::shape(),
                n == tables@.len(),
                li < LEVELS,
                levels.len() == LEVELS,
                crate::manifest::tab_views(tables@) == levels[li as int],
                crate::manifest::refs_wf(tables@),
                c == wal.content(),
                d == Self::dims(),
                ord == level_order(levels, li as int),
                levels == manifest@.levels,
                next_id == manifest@.next_table_id,
                good == (tables_ok(old(cache).images(), c, levels, d) && images_live(
                    old(cache).images(),
                    levels,
                ) && ids_ok(levels, next_id)),
                i <= n,
                cache.port_wf(),
                acc.wf(),
                good ==> {
                    &&& ids_ok(levels, next_id)
                    &&& tables_ok(cache.images(), c, levels, d)
                    &&& images_live(cache.images(), levels)
                    &&& forall|a: AccV| #[trigger]
                        old(acc).alike(a) ==> acc.alike(
                            acc_over(a, c, ord.take(i as int), d, key@, max_seq, exclude),
                        )
                },
            decreases n - i,
        {
            let k: usize = if li == 0 {
                n - 1 - i
            } else {
                i
            };
            let tref: &TableRef<KEY_MAX> = &tables[k];
            let ghost t = tref@;
            let ghost acc1 = *acc;
            let ghost images1 = cache.images();
            proof {
                assert(crate::manifest::tab_views(tables@)[k as int] == t);
                assert(levels[li as int][k as int] == t);
                assert(ord[i as int] == t);
                assert(at(levels, li as int, k as int));
                assert(ord.take(i + 1).drop_last() =~= ord.take(i as int));
                assert(ord.take(i + 1).last() == t);
            }
            let left_out: bool = match exclude {
                Some(id) => id == tref.id,
                None => false,
            };
            if !left_out {
                match Self::consider_table(
                    wal.device(),
                    cache,
                    tref,
                    key,
                    max_seq,
                    scratch,
                    decomp,
                    acc,
                ) {
                    Ok(()) => {},
                    Err(e) => {
                        proof {
                            if good {
                                assert(tab_sound(c, levels[li as int][k as int], d));
                                assert(cached_ok(images1, c, t));
                                lemma_images_added(
                                    images1,
                                    cache.images(),
                                    c,
                                    levels,
                                    next_id,
                                    d,
                                    li as int,
                                    k as int,
                                );
                            }
                        }
                        return Err(e);
                    },
                }
                proof {
                    if known {
                        assert(coherent(images1, c, t.id));
                        assert forall|mem: Seq<Rec>, w: Option<Rec>| #[trigger]
                            old(acc).went_by(mem, c, key@, max_seq, w) implies exists|
                            v: Option<Rec>,
                        | #[trigger] acc.went_by(mem, c, key@, max_seq, v) by {
                            let u = choose|u: Option<Rec>| #[trigger]
                                acc1.went_by(mem, c, key@, max_seq, u);
                        }
                    }
                    if good {
                        assert(tab_sound(c, levels[li as int][k as int], d));
                        lemma_images_added(
                            images1,
                            cache.images(),
                            c,
                            levels,
                            next_id,
                            d,
                            li as int,
                            k as int,
                        );
                        assert forall|a: AccV| #[trigger] old(acc).alike(a) implies acc.alike(
                            acc_over(a, c, ord.take(i + 1), d, key@, max_seq, exclude),
                        ) by {
                            let b = acc_over(a, c, ord.take(i as int), d, key@, max_seq, exclude);
                            assert(acc1.alike(b));
                        }
                    }
                }
            }
            i = i + 1;
        }
        proof {
            assert(ord.take(n as int) =~= ord);
        }
        Ok(())
    }

    /// Considers one table for a read: key-range prune, sequence prune,
    /// then a bloom-gated lookup. A hit with a higher sequence number than
    /// the best so far, and visible at `max_seq`, is promoted into `acc`.
    fn consider_table(
        device: &D,
        cache: &mut BlockCache<BLOCK, CACHE>,
        tref: &TableRef<KEY_MAX>,
        key: &[u8],
        max_seq: u64,
        scratch: &mut [u8; BLOCK],
        decomp: &mut [u8; BLOCK],
        acc: &mut ReadAcc<VAL_MAX>,
    ) -> (r: Result<(), Error<D::Error>>)
        requires
            Self::shape(),
            tref.wf(),
            old(cache).port_wf(),
            old(acc).wf(),
        ensures
            final(cache).port_wf(),
            final(acc).wf(),
            r matches Err(e) ==> Self::read_error(e),
            old(acc).best_seq <= final(acc).best_seq,
            still_coherent(old(cache).images(), final(cache).images(), device.content()),
            coherent(old(cache).images(), device.content(), tref@.id) && r is Ok ==> {
                &&& forall|mem: Seq<Rec>, w: Option<Rec>| #[trigger]
                    old(acc).went_by(mem, device.content(), key@, max_seq, w) ==> exists|
                        v: Option<Rec>,
                    | #[trigger] final(acc).went_by(mem, device.content(), key@, max_seq, v)
                &&& tab_covers(tref@, key@) && tref@.max_seq > final(acc).best_seq ==> readable(
                    device.content(),
                    tref@,
                    Self::dims(),
                    key@,
                )
            },
            ({
                let c = device.content();
                let t = tref@;
                let d = Self::dims();
                tab_sound(c, t, d) && cached_ok(old(cache).images(), c, t) ==> {
                    &&& adds_only(
                        old(cache).images(),
                        final(cache).images(),
                        c,
                        t.id,
                        t.first_block as int,
                        t.first_block + t.block_count,
                    )
                    &&& r matches Err(e) ==> e is Device
                    &&& r is Ok ==> forall|a: AccV| #[trigger]
                        old(acc).alike(a) ==> final(acc).alike(
                            acc_with(a, tab_recs(c, t, d), tab_rdels(c, t, d), key@, max_seq),
                        )
                }
            }),
    {
        let ghost c = device.content();
        let ghost t = tref@;
        let ghost d = Self::dims();
        let ghost images0 = cache.images();
        let ghost good = tab_sound(c, t, d) && cached_ok(images0, c, t);
        let ghost recs = tab_recs(c, t, d);
        let ghost rdels = tab_rdels(c, t, d);
        let ghost lo = t.first_block as int;
        let ghost hi = t.first_block + t.block_count;
        proof {
            Self::lemma_shape();
            if good {
                lemma_sound_table(c, t, d);
                lemma_below_top(c, t, d, key@, max_seq);
                if !crate::manifest::tab_covers(t, key@) {
                    lemma_outside_bounds(c, t, d, key@, max_seq);
                }
            }
        }
        // Both prunes are exact: the table's keys all lie within its bounds,
        // and no entry here can carry a seq above the table's max.
        if !tref.covers(key) || tref.max_seq <= acc.best_seq {
            return Ok(());
        }
        let footer: u64 = match tref.footer_block() {
            Some(b) => b,
            None => {
                return Err(Error::CorruptManifest);
            },
        };
        let rdel_first: u64 = match tref.rdel_first() {
            Some(b) => b,
            None => {
                return Err(Error::CorruptManifest);
            },
        };
        let opened = TableReader::<D, BLOCK, BLOOM_BYTES>::open_cached(
            device,
            cache,
            tref.id,
            scratch,
            footer,
            rdel_first,
        );
        let ghost images1 = cache.images();
        proof {
            if good {
                assert(coherent(images0, c, t.id));
                assert(coherent(images1, c, t.id));
                lemma_adds_trans(images0, images0, images1, c, t.id, lo, hi, footer as int, footer + 1);
            }
        }
        let reader = match opened {
            Ok(r) => r,
            Err(e) => {
                return Err(e);
            },
        };
        // `tmp` (not `acc.stage`) receives the value: only a winning hit is
        // promoted, so a losing hit cannot clobber the staged winner.
        let mut tmp: [u8; VAL_MAX] = [0u8;VAL_MAX];
        let found = reader.lookup_at(cache, scratch, decomp, key, &mut tmp, max_seq);
        let ghost images2 = cache.images();
        let ghost hit = first_at(recs, key@, max_seq);
        proof {
            if good {
                assert(coherent(images2, c, t.id));
                assert(spans(c, reader.footer(), lo, hi));
                lemma_adds_trans(images0, images1, images2, c, t.id, lo, hi, lo, hi);
                lemma_first_at(recs, key@, max_seq);
                assert(looked_up(recs, key@, max_seq, found, tmp@));
                Self::lemma_found(c, t, key@, max_seq, found, tmp@);
            }
        }
        let looked: Lookup = match found {
            Ok(l) => l,
            Err(e) => {
                return Err(e);
            },
        };
        let ghost acc1 = *acc;
        let ghost known = coherent(images0, c, t.id);
        let ghost found_rec = if known && !(looked is Missing) {
            Some(Self::lemma_stored_hit(c, key@, max_seq, looked, tmp@))
        } else {
            None
        };
        match looked {
            Lookup::Value { len, seq, expire_at } => {
                if seq > acc.best_seq && seq <= max_seq {
                    if len > VAL_MAX {
                        return Err(Error::BufferTooSmall { need: len });
                    }
                    let val = vstd::slice::slice_subrange(
                        vstd::array::array_as_slice(&tmp),
                        0,
                        len,
                    );
                    acc.stage_value(val, seq, expire_at);
                }
            },
            Lookup::Tombstone { seq } => {
                if seq > acc.best_seq && seq <= max_seq {
                    acc.best_seq = seq;
                    acc.best = Best::Tombstone;
                }
            },
            Lookup::Missing => {},
        }
        proof {
            if known {
                assert forall|mem: Seq<Rec>, w: Option<Rec>| #[trigger]
                    acc1.went_by(mem, c, key@, max_seq, w) implies exists|v: Option<Rec>| #[trigger]
                    acc.went_by(mem, c, key@, max_seq, v) by {
                    if acc.best_seq > acc1.best_seq {
                        let e = found_rec->0;
                        assert(stored_version(mem, c, e));
                        assert(acc.went_by(mem, c, key@, max_seq, Some(e)));
                    } else {
                        assert(acc.went_by(mem, c, key@, max_seq, w));
                    }
                }
            }
        }
        // A range tombstone in this table covering `key` shadows older
        // point versions; the accumulator keeps the highest covering
        // sequence and compares it against the point winner at the end.
        let ghost acc2 = *acc;
        if reader.rdel_blocks() > 0 {
            match reader.covering_rdel_seq(cache, scratch, key, max_seq) {
                Ok(best) => {
                    proof {
                        if good {
                            lemma_adds_trans(images0, images2, cache.images(), c, t.id, lo, hi, rdel_first as int, rdel_first + t.rdel_blocks);
                            Self::lemma_one_best(rdels, key@, max_seq, best);
                        }
                    }
                    match best {
                        Some(q) => {
                            if q > acc.cover_seq {
                                acc.cover_seq = q;
                            }
                        },
                        None => {},
                    }
                },
                Err(e) => {
                    proof {
                        if good {
                            lemma_adds_trans(images0, images2, cache.images(), c, t.id, lo, hi, rdel_first as int, rdel_first + t.rdel_blocks);
                        }
                    }
                    return Err(e);
                },
            }
        } else {
            proof {
                if good {
                    assert(rdels =~= Seq::empty());
                }
            }
        }
        proof {
            if known {
                assert forall|mem: Seq<Rec>, w: Option<Rec>| #[trigger]
                    old(acc).went_by(mem, c, key@, max_seq, w) implies exists|v: Option<Rec>|
                    #[trigger] acc.went_by(mem, c, key@, max_seq, v) by {
                    assert(acc1.went_by(mem, c, key@, max_seq, w));
                    let v = choose|v: Option<Rec>| #[trigger]
                        acc2.went_by(mem, c, key@, max_seq, v);
                    assert(acc.went_by(mem, c, key@, max_seq, v));
                }
                assert(readable(c, t, d, key@));
            }
        }
        Ok(())
    }

    /// A version that a lookup found is stored in a block.
    proof fn lemma_stored_hit(
        c: Map<u64, Seq<u8>>,
        key: Seq<u8>,
        max_seq: u64,
        l: Lookup,
        buf: Seq<u8>,
    ) -> (e: Rec)
        requires
            found_stored(c, key, max_seq, l, buf),
        ensures
            exists|id: u64, off: int| #[trigger] entry_at(c, id, off) == Some(e),
            e.key == key,
            e.seq <= max_seq,
            hit_is(as_hit(l), e, buf),
    {
        let id = choose|id: u64|
            crc_ok(#[trigger] c[id]) && logical_of(c[id]) is Some && hit_stored(
                logical_of(c[id])->0,
                key,
                max_seq,
                as_hit(l),
                buf,
            );
        let p = logical_of(c[id])->0;
        let off = choose|off: int|
            0 <= off <= p.len() && (#[trigger] ent_parse(p.skip(off)) matches Some((e, _)) && e.key
                == key && e.seq <= max_seq && hit_is(as_hit(l), e, buf));
        let (e, n) = ent_parse(p.skip(off))->0;
        assert(entry_at(c, id, off) == Some(e));
        e
    }

    /// Whether a range tombstone at/below `max_seq` and newer than `above`
    /// covers `key`, across the memtable and every table with a
    /// range-tombstone section: the scans' "is the winning version
    /// (`seq == above`) hidden?" test. Tables that cannot hold such a
    /// tombstone are skipped without I/O: no rdel section, `max_seq <=
    /// above` (nothing in them is newer than the winner), or bounds that
    /// cannot contain `key` (`last_key` carries the greatest exclusive
    /// rdel end inclusively, so that prune is a conservative superset).
    /// The search stops at the first hit. `scratch` is the scan's
    /// physical-read buffer.
    pub(crate) fn rdel_hides(
        &mut self,
        key: &[u8],
        max_seq: u64,
        above: u64,
        scratch: &mut [u8; BLOCK],
    ) -> (r: Result<bool, Error<D::Error>>)
        requires
            old(self).wf(),
            old(self).is_opened(),
        ensures
            final(self).wf(),
            final(self).same_state(old(self)),
            r matches Err(e) ==> Self::read_error(e),
            old(self).sound() ==> {
                &&& final(self).sound()
                &&& match r {
                    Ok(b) => b == hidden(
                        old(self).mem(),
                        old(self).content(),
                        old(self).man().levels,
                        Self::dims(),
                        key@,
                        max_seq,
                        above,
                    ),
                    Err(e) => e is Device,
                }
            },
    {
        proof {
            reveal(Db::tidy);
        }
        let ghost good = self.sound();
        let ghost c = self.content();
        let ghost levels = self.man().levels;
        let ghost d = Self::dims();
        proof {
            self.lemma_wf();
            self.manifest.lemma_wf();
        }
        let q = self.table.max_covering_rdel(key, max_seq);
        proof {
            lemma_mem_cover(self.mem(), key@, max_seq, q);
        }
        match q {
            Some(q) => {
                if q > above {
                    return Ok(true);
                }
            },
            None => {},
        }
        let mut li: usize = 0;
        while li < LEVELS
            invariant
                self.wf(),
                self.is_opened(),
                self.same_state(old(self)),
                good == old(self).sound(),
                c == old(self).content(),
                levels == old(self).man().levels,
                levels.len() == LEVELS,
                d == Self::dims(),
                li <= LEVELS,
                good ==> self.sound(),
                !hides(rdels_of(old(self).mem()), key@, max_seq, above),
                good ==> forall|l: int, i: int|
                    at(levels, l, i) && l < li ==> !hides(
                        tab_rdels(c, #[trigger] levels[l][i], d),
                        key@,
                        max_seq,
                        above,
                    ),
            decreases LEVELS - li,
        {
            proof {
                reveal(Db::tidy);
            }
            let ghost before = *self;
            let got = Self::level_hides(
                &self.wal,
                &self.manifest,
                li,
                &mut self.cache,
                key,
                max_seq,
                above,
                scratch,
            );
            proof {
                Self::lemma_buffers_kept(&before, self);
                if good {
                    assert(tables_ok(before.images(), c, levels, d));
                }
            }
            match got {
                Ok(true) => {
                    return Ok(true);
                },
                Ok(false) => {},
                Err(e) => {
                    return Err(e);
                },
            }
            li = li + 1;
        }
        Ok(false)
    }

    /// The same within one level.
    fn level_hides(
        wal: &crate::wal::WalWriter<D, BLOCK>,
        manifest: &crate::manifest::Manifest<LEVELS, TABLES, KEY_MAX>,
        li: usize,
        cache: &mut BlockCache<BLOCK, CACHE>,
        key: &[u8],
        max_seq: u64,
        above: u64,
        scratch: &mut [u8; BLOCK],
    ) -> (r: Result<bool, Error<D::Error>>)
        requires
            Self::shape(),
            manifest.wf(),
            old(cache).port_wf(),
            li < LEVELS,
        ensures
            final(cache).port_wf(),
            r matches Err(e) ==> Self::read_error(e),
            ({
                let c = wal.content();
                let levels = manifest@.levels;
                tables_ok(old(cache).images(), c, levels, Self::dims()) && images_live(
                    old(cache).images(),
                    manifest@.levels,
                ) && ids_ok(levels, manifest@.next_table_id) ==> {
                    &&& tables_ok(final(cache).images(), c, levels, Self::dims())
                    &&& images_live(final(cache).images(), manifest@.levels)
                    &&& match r {
                        Ok(b) => b == exists|i: int|
                            at(levels, li as int, i) && hides(
                                tab_rdels(c, #[trigger] levels[li as int][i], Self::dims()),
                                key@,
                                max_seq,
                                above,
                            ),
                        Err(e) => e is Device,
                    }
                }
            }),
    {
        let ghost c = wal.content();
        let ghost levels = manifest@.levels;
        let ghost next_id = manifest@.next_table_id;
        let ghost d = Self::dims();
        let ghost good = tables_ok(cache.images(), c, levels, d) && images_live(
            cache.images(),
            levels,
        ) && ids_ok(levels, next_id);
        proof {
            manifest.lemma_wf();
        }
        let tables: &[TableRef<KEY_MAX>] = match manifest.level(li) {
            Some(ts) => ts,
            None => {
                return Ok(false);
            },
        };
        let n: usize = tables.len();
        let mut i: usize = 0;
        while i < n
            invariant
                Self::shape(),
                n == tables@.len(),
                li < LEVELS,
                levels.len() == LEVELS,
                crate::manifest::tab_views(tables@) == levels[li as int],
                crate::manifest::refs_wf(tables@),
                c == wal.content(),
                d == Self::dims(),
                levels == manifest@.levels,
                next_id == manifest@.next_table_id,
                good == (tables_ok(old(cache).images(), c, levels, d) && images_live(
                    old(cache).images(),
                    levels,
                ) && ids_ok(levels, next_id)),
                i <= n,
                cache.port_wf(),
                good ==> {
                    &&& tables_ok(cache.images(), c, levels, d)
                    &&& images_live(cache.images(), levels)
                    &&& forall|j: int|
                        0 <= j < i ==> !hides(
                            tab_rdels(c, #[trigger] levels[li as int][j], d),
                            key@,
                            max_seq,
                            above,
                        )
                },
            decreases n - i,
        {
            let tref: &TableRef<KEY_MAX> = &tables[i];
            let ghost t = tref@;
            let ghost images1 = cache.images();
            proof {
                assert(crate::manifest::tab_views(tables@)[i as int] == t);
                assert(levels[li as int][i as int] == t);
                assert(at(levels, li as int, i as int));
                if good {
                    assert(tab_sound(c, t, d));
                    assert(cached_ok(images1, c, t));
                    lemma_sound_table(c, t, d);
                    lemma_below_top(c, t, d, key@, max_seq);
                    if !crate::manifest::tab_covers(t, key@) {
                        lemma_outside_bounds(c, t, d, key@, max_seq);
                    }
                    if t.rdel_blocks == 0 {
                        assert(tab_rdels(c, t, d) =~= Seq::empty());
                    }
                }
            }
            if tref.rdel_blocks != 0 && tref.max_seq > above && tref.covers(key) {
                let first: u64 = match tref.rdel_first() {
                    Some(b) => b,
                    None => {
                        return Err(Error::CorruptManifest);
                    },
                };
                let got = covering_rdel_seq_in(
                    wal.device(),
                    cache,
                    tref.id,
                    scratch,
                    first,
                    tref.rdel_blocks,
                    key,
                    max_seq,
                );
                proof {
                    if good {
                        assert(coherent(images1, c, t.id));
                        lemma_adds_trans(
                            images1,
                            images1,
                            cache.images(),
                            c,
                            t.id,
                            t.first_block as int,
                            t.first_block + t.block_count,
                            first as int,
                            first + t.rdel_blocks,
                        );
                        lemma_images_added(
                            images1,
                            cache.images(),
                            c,
                            levels,
                            next_id,
                            d,
                            li as int,
                            i as int,
                        );
                        if got is Ok {
                            Self::lemma_one_best(tab_rdels(c, t, d), key@, max_seq, got->Ok_0);
                        }
                    }
                }
                match got {
                    Ok(best) => match best {
                        Some(q) => {
                            if q > above {
                                return Ok(true);
                            }
                        },
                        None => {},
                    },
                    Err(e) => {
                        return Err(e);
                    },
                }
            }
            i = i + 1;
        }
        Ok(false)
    }

    /// A lookup in an intact table finds its first visible version.
    proof fn lemma_found(
        c: Map<u64, Seq<u8>>,
        t: TabV,
        key: Seq<u8>,
        max_seq: u64,
        found: Result<Lookup, Error<D::Error>>,
        buf: Seq<u8>,
    )
        requires
            tab_sound(c, t, Self::dims()),
            looked_up(tab_recs(c, t, Self::dims()), key, max_seq, found, buf),
            buf.len() == VAL_MAX,
        ensures
            found matches Err(e) ==> e is Device,
            found matches Ok(l) ==> match first_at(tab_recs(c, t, Self::dims()), key, max_seq) {
                Some(e) => found_is(l, e, buf) && e.seq <= max_seq,
                None => l is Missing,
            },
    {
        let recs = tab_recs(c, t, Self::dims());
        assert(is_run_of(tab_run(c, t, Self::dims()), c, t, Self::dims()));
        lemma_first_at(recs, key, max_seq);
        let first = first_at(recs, key, max_seq);
        if first is Some {
            let j = choose|j: int| #[trigger] is_hit(recs, key, max_seq, j) && recs[j] == first->0;
            assert(crate::compact::cursor::rec_within(recs[j], KEY_MAX, VAL_MAX));
            assert forall|i: int| #[trigger] is_hit(recs, key, max_seq, i) implies i == j by {
                lemma_one_hit(recs, key, max_seq, i, j);
            }
        }
    }

    /// The best covering sequence is one.
    proof fn lemma_one_best(
        rs: Seq<crate::sstable::format::RdelV>,
        key: Seq<u8>,
        max_seq: u64,
        best: Option<u64>,
    )
        requires
            rdel_best(rs, key, max_seq, best),
        ensures
            best == cover_of(rs, key, max_seq),
    {
        lemma_cover_of(rs, key, max_seq);
    }
}

/// The tables of level `l` in the order a read takes them.
pub open spec fn level_order(levels: Seq<Seq<TabV>>, l: int) -> Seq<TabV> {
    if l == 0 {
        levels[0].reverse()
    } else {
        levels[l]
    }
}

/// One more level.
pub proof fn lemma_order_step(levels: Seq<Seq<TabV>>, l: int)
    requires
        0 <= l < levels.len(),
    ensures
        read_order(levels.take(l + 1)) == read_order(levels.take(l)) + level_order(levels, l),
{
    let a = levels.take(l + 1);
    if l == 0 {
        assert(read_order(levels.take(0)) =~= Seq::<TabV>::empty());
        assert(a[0] == levels[0]);
        assert(read_order(a) =~= read_order(levels.take(0)) + level_order(levels, 0));
    } else {
        assert(a.drop_last() =~= levels.take(l));
        assert(a.last() == levels[l]);
    }
}

} // verus!

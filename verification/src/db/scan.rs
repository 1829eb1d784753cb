//! Merge scan over the memtable and every `SSTable`.
//!
//! A `Scan` is caller-owned state: one cursor per table and a memtable
//! position. While a scan is in flight the database may be read but not
//! written, so cursor positions stay valid and the snapshot view stays
//! stable.
//!
//! Winner selection mirrors the compaction merge: the minimum key across
//! live heads, highest sequence number winning ties, tombstone winners and
//! winners hidden by a range tombstone skipped silently. Entries with
//! `seq > max_seq` are invisible, which is what makes scans at a
//! [`Db::snapshot`] watermark repeatable.
//!
//! Key/value bytes go into caller buffers. [`Error::BufferTooSmall`] is
//! reported *before* any cursor advances, so retrying with a larger buffer
//! yields the same entry: never silent truncation, never a skipped entry.
//! The key buffer takes every key that the scan reaches, a deleted one too.

use vstd::prelude::*;

use super::compact_reads::{lemma_acc_best, lemma_acc_cover, lemma_order_has};
use super::place::{at, lemma_read_order};
use super::read::{hidden, hides};
use super::view::{
    acc_over, best_seq, is_run_of, mem_acc, read_order, tab_rdels, tab_recs, tab_run, tab_sound,
    DimsV,
};
use super::Db;
use crate::bytes::{bytes_eq, bytes_le, bytes_lt, copy_into, lex_le, lex_lt, spliced};
use crate::cache::NoCache;
use crate::compact::cursor::{
    data_stream, ended, fault_error, lemma_run_stream, stream_fails, Cursor, Parked, StreamV,
};
use crate::compact::rdel_merge::cover_of;
use crate::compact::sift::{first_at, left_in, lemma_first_at};
use crate::device::BlockDevice;
use crate::error::Error;
use crate::grid::List;
use crate::keys::KeyBound;
use crate::manifest::{data_blocks_of, lemma_total_snoc, lemma_total_take, TableRef};
use crate::manifest_format::{total_tables, TabV};
use crate::memtable::{is_hit, key_sorted, visible_version, Rec};
use crate::sstable::block::check_block_crc;
use crate::sstable::format::{foot_of, index_list, index_of, payload_of};
use crate::sstable::reader::{footer_index_block, index_intact};
use crate::sstable::search::{index_lookup, index_sorted, is_start};
use crate::sstable::table::{
    group_start, law_table_reads_back, lemma_group_start_mono, lemma_stored_index_sorted,
};

verus! {

/// The key lies at or past the floor.
pub open spec fn beyond(floor: Seq<u8>, strict: bool, k: Seq<u8>) -> bool {
    if strict {
        lex_lt(floor, k)
    } else {
        lex_le(floor, k)
    }
}

/// The entry is one that a scan from the floor on stops at.
pub open spec fn stops(floor: Seq<u8>, strict: bool, max_seq: u64, e: Rec) -> bool {
    e.seq <= max_seq && !e.range_del && beyond(floor, strict, e.key)
}

/// Entry `n` of `recs` is the first that a scan from the floor on stops at.
pub open spec fn first_stop(
    recs: Seq<Rec>,
    floor: Seq<u8>,
    strict: bool,
    max_seq: u64,
    n: int,
) -> bool {
    &&& 0 <= n <= recs.len()
    &&& forall|g: int| 0 <= g < n ==> !stops(floor, strict, max_seq, #[trigger] recs[g])
    &&& n < recs.len() ==> stops(floor, strict, max_seq, recs[n])
}

/// Parks a cursor at its next entry with `seq <= max_seq` at or past the
/// floor. A torn block is [`Error::CorruptBlock`]: unlike point lookups, a
/// scan must never silently skip entries.
fn park_cursor<D: BlockDevice, const BLOCK: usize, const KEY_MAX: usize, const VAL_MAX: usize>(
    cur: &mut Cursor<BLOCK, KEY_MAX, VAL_MAX>,
    device: &D,
    raw: &mut [u8; BLOCK],
    floor: &[u8],
    strict: bool,
    max_seq: u64,
) -> (r: Result<(), Error<D::Error>>)
    requires
        D::BLOCK == BLOCK,
        old(cur).wf(),
    ensures
        final(cur).wf(),
        r is Ok && old(cur).loaded(device.content()) ==> final(cur).loaded(device.content()),
        ({
            let s = old(cur).rest(device.content());
            match r {
                Ok(()) => exists|n: int|
                    {
                        &&& #[trigger] first_stop(s.recs, floor@, strict, max_seq, n)
                        &&& final(cur).rest(device.content()) == (StreamV {
                            recs: s.recs.skip(n),
                            fault: s.fault,
                        })
                    },
                Err(e) => e is Device || exists|n: nat|
                    n > 0 && #[trigger] stream_fails(s, n, e, KEY_MAX, VAL_MAX),
            }
        }),
{
    let ghost c = device.content();
    let ghost s = cur.rest(c);
    let ghost mut n: int = 0;
    proof {
        assert(s.recs.skip(0) =~= s.recs);
        assert(s == (StreamV { recs: s.recs.skip(0), fault: s.fault }));
        cur.lemma_head(c);
    }
    while cur.live()
        invariant
            cur.rest(c) == (StreamV { recs: s.recs.skip(n), fault: s.fault }),
            cur.is_live() <==> n < s.recs.len(),
            D::BLOCK == BLOCK,
            c == device.content(),
            s == old(cur).rest(c),
            cur.wf(),
            old(cur).loaded(c) ==> cur.loaded(c),
            0 <= n <= s.recs.len(),
            forall|g: int| 0 <= g < n ==> !stops(floor@, strict, max_seq, #[trigger] s.recs[g]),
        ensures
            first_stop(s.recs, floor@, strict, max_seq, n),
        decreases s.recs.len() - n,
    {
        proof {
            cur.lemma_head(c);
            assert(s.recs.skip(n)[0] == s.recs[n]);
        }
        let past: bool = if strict {
            bytes_lt(floor, cur.key())
        } else {
            bytes_le(floor, cur.key())
        };
        if cur.seq() <= max_seq && past {
            break;
        }
        match cur.advance(device, raw) {
            Ok(_) => {},
            Err(e) => {
                proof {
                    if !(e is Device) {
                        assert(stream_fails(s, (n + 1) as nat, e, KEY_MAX, VAL_MAX));
                    }
                }
                return Err(e);
            },
        }
        proof {
            assert(s.recs.skip(n).skip(1) =~= s.recs.skip(n + 1));
            n = n + 1;
            cur.lemma_head(c);
        }
    }
    Ok(())
}

/// Moves a parked cursor to its next entry with `seq <= max_seq` at or past
/// the floor, through `work`. Without a move no block is read; on an error
/// it stays.
fn move_parked<D: BlockDevice, const BLOCK: usize, const KEY_MAX: usize, const VAL_MAX: usize>(
    p: &mut Parked<KEY_MAX, VAL_MAX>,
    work: &mut Cursor<BLOCK, KEY_MAX, VAL_MAX>,
    device: &D,
    raw: &mut [u8; BLOCK],
    floor: &[u8],
    strict: bool,
    max_seq: u64,
) -> (r: Result<(), Error<D::Error>>)
    requires
        BLOCK >= 6,
        D::BLOCK == BLOCK,
        old(p).wf(),
        old(p).loaded(device.content()),
    ensures
        final(p).wf(),
        final(p).loaded(device.content()),
        ({
            let s = old(p).rest(device.content());
            match r {
                Ok(()) => exists|n: int|
                    {
                        &&& #[trigger] first_stop(s.recs, floor@, strict, max_seq, n)
                        &&& final(p).rest(device.content()) == (StreamV {
                            recs: s.recs.skip(n),
                            fault: s.fault,
                        })
                    },
                Err(e) => e is Device || exists|n: nat|
                    n > 0 && #[trigger] stream_fails(s, n, e, KEY_MAX, VAL_MAX),
            }
        }),
{
    let ghost c = device.content();
    let ghost s = p.rest(c);
    proof {
        p.lemma_head(c);
        assert(s.recs.skip(0) =~= s.recs);
        assert(s == (StreamV { recs: s.recs.skip(0), fault: s.fault }));
    }
    if !p.live() {
        assert(first_stop(s.recs, floor@, strict, max_seq, 0));
        return Ok(());
    }
    let past: bool = if strict {
        bytes_lt(floor, p.key())
    } else {
        bytes_le(floor, p.key())
    };
    if p.seq() <= max_seq && past {
        assert(first_stop(s.recs, floor@, strict, max_seq, 0));
        return Ok(());
    }
    match work.resume(device, raw, &*p) {
        Ok(()) => {},
        Err(e) => {
            return Err(e);
        },
    }
    match park_cursor(work, device, raw, floor, strict, max_seq) {
        Ok(()) => {},
        Err(e) => {
            return Err(e);
        },
    }
    *p = Parked::of(&*work, Ghost(c));
    Ok(())
}

/// Where the entries at or past `start` can begin: a data block of the
/// table before which every key is below `start`. Reads the footer and the
/// index.
fn start_block<
    D: BlockDevice,
    const BLOCK: usize,
    const KEY_MAX: usize,
>(device: &D, raw: &mut [u8; BLOCK], tref: &TableRef<KEY_MAX>, start: &[u8], Ghost(d): Ghost<DimsV>) -> (r:
    Result<u64, Error<D::Error>>)
    requires
        D::BLOCK == BLOCK,
        BLOCK >= 512,
        d.block == BLOCK,
    ensures
        r matches Err(e) ==> e is CorruptBlock || e is CorruptManifest || e is Device,
        r matches Ok(b) ==> begins_at(device.content(), tref@, start@, b),
        tab_sound(device.content(), tref@, d) && tref.block_count > tref.rdel_blocks + 3 ==> match r {
            Ok(b) => {
                let run = tab_run(device.content(), tref@, d);
                &&& b < run.groups.len()
                &&& forall|g: int|
                    0 <= g < group_start(run.groups, b as int) ==> lex_lt(
                        (#[trigger] run.recs()[g]).key,
                        start@,
                    )
            },
            Err(e) => e is Device,
        },
{
    let ghost c = device.content();
    let ghost t = tref@;
    let ghost good = tab_sound(c, t, d) && t.block_count > t.rdel_blocks + 3;
    let ghost run = tab_run(c, t, d);
    let footer: u64 = match tref.footer_block() {
        Some(f) => f,
        None => {
            proof {
                if good {
                    assert(is_run_of(run, c, t, d));
                }
            }
            return Err(Error::CorruptManifest);
        },
    };
    proof {
        if good {
            assert(is_run_of(run, c, t, d));
            law_table_reads_back(run, c, d.block, d.bloom);
            assert(footer == run.footer_at());
        }
    }
    let mut none: NoCache<BLOCK> = NoCache;
    let index_id: u64 = match footer_index_block(device, &mut none, 0, raw, footer) {
        Ok(id) => id,
        Err(e) => {
            return Err(e);
        },
    };
    match device.read_block(index_id, raw) {
        Ok(()) => {},
        Err(e) => {
            return Err(Error::Device(e));
        },
    }
    match check_block_crc::<D::Error, BLOCK>(raw, index_id) {
        Ok(()) => {},
        Err(e) => {
            return Err(e);
        },
    }
    let payload: &[u8] = vstd::slice::slice_subrange(
        vstd::array::array_as_slice(raw),
        0,
        BLOCK - 4,
    );
    let ghost l = index_list(payload@)->0;
    proof {
        assert(payload@ =~= payload_of(c[index_id]));
        if good {
            lemma_stored_index_sorted(c, run.foot(), d.block, d.bloom);
        }
    }
    match index_lookup::<D::Error>(payload, start, index_id) {
        Ok(Some((id, left))) => {
            if id < tref.first_block {
                proof {
                    if good {
                        let l = index_of(run.groups, run.base);
                        let p = choose|p: int| 0 <= p < l.len() && (#[trigger] l[p]).1 == id;
                    }
                }
                return Err(Error::CorruptBlock { id });
            }
            proof {
                let x = l.len() - left;
                assert(l[x].1 == id);
                assert(names_start(l, t, start@, (id - tref.first_block) as u64));
                if good {
                    let l = index_of(run.groups, run.base);
                    let p = choose|p: int| #[trigger] is_start(l, start@, p) && l[p].1 == id;
                    lemma_before_start(run.groups, run.base, start@, p);
                }
            }
            Ok(id - tref.first_block)
        },
        // `start` sorts before every block: begin at block 0.
        Ok(None) => {
            proof {
                if good {
                    assert(run.groups.take(0) =~= Seq::<Seq<Rec>>::empty());
                }
            }
            Ok(0)
        },
        Err(e) => Err(e),
    }
}

/// The entries before a search's first block are below the key.
proof fn lemma_before_start(groups: Seq<Seq<Rec>>, base: u64, key: Seq<u8>, p: int)
    requires
        key_sorted(crate::sstable::table::flat_recs(groups)),
        forall|b: int| 0 <= b < groups.len() ==> (#[trigger] groups[b]).len() >= 1,
        is_start(index_of(groups, base), key, p),
    ensures
        forall|g: int|
            0 <= g < group_start(groups, p) ==> lex_lt(
                (#[trigger] crate::sstable::table::flat_recs(groups)[g]).key,
                key,
            ),
{
    let all = crate::sstable::table::flat_recs(groups);
    let l = index_of(groups, base);
    if p > 0 {
        crate::sstable::table::lemma_flat_at(groups, p, 0);
        let h = group_start(groups, p);
        assert(all[h + 0] == groups[p][0]);
        assert(l[p].0 == groups[p][0].key);
        assert forall|g: int| 0 <= g < h implies lex_lt((#[trigger] all[g]).key, key) by {
            assert(lex_le(all[g].key, all[h].key));
            crate::bytes::lemma_lex_le_lt(all[g].key, all[h].key, key);
        }
    } else {
        assert(groups.take(0) =~= Seq::<Seq<Rec>>::empty());
    }
}

/// `t` is what is left of `s` after some of its entries, the same fault at
/// its end.
pub open spec fn later(s: StreamV, t: StreamV) -> bool {
    exists|n: int|
        0 <= n <= s.recs.len() && t == (StreamV { recs: #[trigger] s.recs.skip(n), fault: s.fault })
}

/// Each stream is what is left of the one before.
pub open spec fn all_later(a: Seq<StreamV>, b: Seq<StreamV>) -> bool {
    &&& a.len() == b.len()
    &&& forall|i: int| 0 <= i < a.len() ==> later(#[trigger] a[i], b[i])
}

/// The stream ends in a fault that gives the error.
pub open spec fn fails_with<E>(s: StreamV, e: Error<E>, key_max: usize, val_max: usize) -> bool {
    s.fault matches Some(f) && e == fault_error::<E>(f, key_max, val_max)
}

/// One of the streams ends in a fault that gives the error.
pub open spec fn one_fails<E>(ss: Seq<StreamV>, e: Error<E>, key_max: usize, val_max: usize) -> bool {
    exists|i: int| 0 <= i < ss.len() && #[trigger] fails_with(ss[i], e, key_max, val_max)
}

/// What the data blocks of a table hold from block `b` on.
pub open spec fn from_block(
    c: Map<u64, Seq<u8>>,
    t: TabV,
    key_max: usize,
    val_max: usize,
    b: u64,
) -> StreamV {
    match data_blocks_of(t) {
        Some(n) => data_stream(c, t.first_block, n, key_max, val_max, b as int),
        None => ended(),
    }
}

/// Data block `b` is where the table's index has a scan from `start` begin:
/// at the block it names for the key, or at the first where the key sorts
/// before all.
pub open spec fn begins_at(c: Map<u64, Seq<u8>>, t: TabV, start: Seq<u8>, b: u64) -> bool {
    match foot_of(c[(t.first_block + t.block_count - 1) as u64]) {
        None => false,
        Some(f) => index_intact(c, f) && names_start(
            index_list(payload_of(c[f.index_block]))->0,
            t,
            start,
            b,
        ),
    }
}

/// As [`begins_at`], of the entries of an index.
pub open spec fn names_start(l: Seq<(Seq<u8>, u64)>, t: TabV, start: Seq<u8>, b: u64) -> bool {
    ||| b == 0 && (l.len() > 0 ==> lex_lt(start, l[0].0))
    ||| exists|p: int|
        0 <= p < l.len() && (#[trigger] l[p]).1 == t.first_block + b && (index_sorted(l)
            ==> is_start(l, start, p))
}

/// The stream reads on in the table, from the block where a scan from
/// `start` begins to the end.
pub open spec fn reads_on(
    c: Map<u64, Seq<u8>>,
    t: TabV,
    start: Seq<u8>,
    key_max: usize,
    val_max: usize,
    s: StreamV,
) -> bool {
    exists|b: u64|
        b < data_blocks_of(t)->0 && begins_at(c, t, start, b) && later(
            #[trigger] from_block(c, t, key_max, val_max, b),
            s,
        )
}

proof fn lemma_later(a: Seq<StreamV>, b: Seq<StreamV>, c: Seq<StreamV>)
    requires
        all_later(a, b),
        all_later(b, c),
    ensures
        all_later(a, c),
{
    assert forall|i: int| 0 <= i < a.len() implies later(#[trigger] a[i], c[i]) by {
        assert(later(a[i], b[i]));
        assert(later(b[i], c[i]));
        let n = choose|n: int|
            0 <= n <= a[i].recs.len() && b[i] == (StreamV {
                recs: #[trigger] a[i].recs.skip(n),
                fault: a[i].fault,
            });
        let m = choose|m: int|
            0 <= m <= b[i].recs.len() && c[i] == (StreamV {
                recs: #[trigger] b[i].recs.skip(m),
                fault: b[i].fault,
            });
        assert(a[i].recs.skip(n).skip(m) =~= a[i].recs.skip(n + m));
    }
}

proof fn lemma_fault_later<E>(
    a: Seq<StreamV>,
    b: Seq<StreamV>,
    e: Error<E>,
    key_max: usize,
    val_max: usize,
)
    requires
        all_later(a, b),
    ensures
        one_fails(b, e, key_max, val_max) ==> one_fails(a, e, key_max, val_max),
{
    if one_fails(b, e, key_max, val_max) {
        let i = choose|i: int| 0 <= i < b.len() && #[trigger] fails_with(b[i], e, key_max, val_max);
        assert(later(a[i], b[i]));
        assert(fails_with(a[i], e, key_max, val_max));
    }
}

proof fn lemma_later_self(a: Seq<StreamV>)
    ensures
        all_later(a, a),
{
    assert forall|i: int| 0 <= i < a.len() implies later(#[trigger] a[i], a[i]) by {
        assert(a[i].recs.skip(0) =~= a[i].recs);
    }
}

/// The table stands in a level.
pub open spec fn in_levels(levels: Seq<Seq<TabV>>, t: TabV) -> bool {
    exists|l: int, x: int| at(levels, l, x) && #[trigger] levels[l][x] == t
}

/// What a scan reads: the memtable, the device's blocks and the levels.
pub struct ScannedV {
    pub mem: Seq<Rec>,
    pub content: Map<u64, Seq<u8>>,
    pub levels: Seq<Seq<TabV>>,
}

/// Caller-owned merge scan over one database.
///
/// Created by [`Scan::new`], positioned by [`seek`](Scan::seek), advanced
/// by [`next`](Scan::next). Between them the database may be read, not
/// written: `put`, `delete`, `flush`, and `compact_step` would shift the
/// cursor positions and the snapshot view under the scan.
pub struct Scan<
    const BLOCK: usize,
    const KEY_MAX: usize,
    const VAL_MAX: usize,
    const LEVELS: usize,
    const TABLES: usize,
> {
    end: KeyBound<KEY_MAX>,
    has_end: bool,
    max_seq: u64,
    // Whether the scan was ever positioned.
    sought: bool,
    // Block-read buffer of the cursors.
    raw: [u8; BLOCK],
    // The one cursor with a block of its own: the parked ones move through
    // it.
    work: Cursor<BLOCK, KEY_MAX, VAL_MAX>,
    // Memtable head: the entry that the scan is parked at.
    mem_idx: usize,
    // One cursor per table that overlaps the range, held in place.
    cursors: List<Parked<KEY_MAX, VAL_MAX>, LEVELS, TABLES>,
    // The tables of the cursors.
    tabs: Ghost<Seq<TabV>>,
    // The lower end of what is left, exclusive once a key was passed.
    floor: Ghost<Seq<u8>>,
    strict: Ghost<bool>,
    // What was scanned when the scan was positioned.
    over: Ghost<ScannedV>,
}

/// The entry that a source is parked at.
struct Head<'a> {
    key: &'a [u8],
    val: &'a [u8],
    seq: u64,
    tombstone: bool,
}

impl<'a> Head<'a> {
    /// The head is a view of the record.
    spec fn shows(self, e: Rec) -> bool {
        &&& self.key@ == e.key
        &&& self.val@ == e.val
        &&& self.seq == e.seq
        &&& self.tombstone == e.tombstone
    }
}

impl<
    const BLOCK: usize,
    const KEY_MAX: usize,
    const VAL_MAX: usize,
    const LEVELS: usize,
    const TABLES: usize,
> Scan<BLOCK, KEY_MAX, VAL_MAX, LEVELS, TABLES> {
    /// The scan is well formed.
    pub closed spec fn wf(&self) -> bool {
        &&& self.end.wf()
        &&& self.cursors.wf()
        &&& self.cursors@.len() == self.tabs@.len()
        &&& forall|i: int|
            0 <= i < self.cursors@.len() ==> (#[trigger] self.cursors@[i]).wf()
                && self.cursors@[i].loaded(self.over@.content)
    }

    /// What the scan was positioned over.
    pub closed spec fn scanned(&self) -> ScannedV {
        self.over@
    }

    /// The scan was positioned at least once.
    pub closed spec fn is_sought(&self) -> bool {
        self.sought
    }

    /// What each table cursor has left: its entries, then the end of the
    /// table or the damage that reading on meets.
    pub closed spec fn pending(&self) -> Seq<StreamV> {
        self.streams(self.over@.content)
    }

    /// The table is in the range and has data blocks: its cursor reads on
    /// in it.
    pub open spec fn entered(&self, t: TabV, start: Seq<u8>) -> bool {
        exists|i: int|
            0 <= i < self.pending().len() && reads_on(
                self.scanned().content,
                t,
                start,
                KEY_MAX,
                VAL_MAX,
                #[trigger] self.pending()[i],
            )
    }

    /// The table lies outside the range, or has no data blocks.
    pub open spec fn passed_over(t: TabV, start: Seq<u8>, end: Option<Seq<u8>>) -> bool {
        ||| lex_lt(t.last_key, start)
        ||| end matches Some(e) && !lex_lt(t.first_key, e)
        ||| data_blocks_of(t) == Some(0u64)
    }

    /// The highest sequence that the scan sees.
    pub closed spec fn limit(&self) -> u64 {
        self.max_seq
    }

    /// The key is still ahead of the scan.
    pub closed spec fn ahead(&self, k: Seq<u8>) -> bool {
        &&& beyond(self.floor@, self.strict@, k)
        &&& self.has_end ==> lex_lt(k, self.end@)
    }

    /// Source 0 is the memtable, sources 1 on are the cursors: the entry
    /// that a source is parked at.
    spec fn head(&self, mem: Seq<Rec>, src: int) -> Option<Rec> {
        if src == 0 {
            if self.mem_idx < mem.len() {
                Some(mem[self.mem_idx as int])
            } else {
                None
            }
        } else if self.cursors@[src - 1].is_live() {
            Some(self.cursors@[src - 1].head_rec())
        } else {
            None
        }
    }

    /// The cursor of table `t` is parked at its first entry still ahead.
    spec fn parked(&self, d: DimsV, t: TabV, cur: Parked<KEY_MAX, VAL_MAX>) -> bool {
        let recs = tab_recs(self.over@.content, t, d);
        exists|n: int|
            {
                &&& #[trigger] first_stop(recs, self.floor@, self.strict@, self.max_seq, n)
                &&& cur.rest(self.over@.content) == (StreamV { recs: recs.skip(n), fault: None })
            }
    }

    /// Every source is parked at its first entry still ahead, and a table
    /// without a cursor has none.
    pub closed spec fn positioned(&self, d: DimsV) -> bool {
        let v = self.over@;
        &&& self.sought
        &&& first_stop(v.mem, self.floor@, self.strict@, self.max_seq, self.mem_idx as int)
        &&& forall|i: int|
            0 <= i < self.tabs@.len() ==> self.parked(d, #[trigger] self.tabs@[i], self.cursors@[i])
        &&& forall|i: int|
            0 <= i < self.tabs@.len() ==> in_levels(v.levels, #[trigger] self.tabs@[i])
        &&& forall|l: int, x: int|
            at(v.levels, l, x) ==> self.tabs@.contains(#[trigger] v.levels[l][x]) || forall|g: int|
                0 <= g < tab_recs(v.content, v.levels[l][x], d).len() ==> !self.ahead(
                    (#[trigger] tab_recs(v.content, v.levels[l][x], d)[g]).key,
                )
    }

    /// Where a cursor is parked depends on the floor, the limit and what is
    /// scanned alone.
    proof fn lemma_parked_same(
        a: &Self,
        b: &Self,
        d: DimsV,
        t: TabV,
        cur: Parked<KEY_MAX, VAL_MAX>,
    )
        requires
            a.parked(d, t, cur),
            b.floor == a.floor,
            b.strict == a.strict,
            b.max_seq == a.max_seq,
            b.over == a.over,
        ensures
            b.parked(d, t, cur),
    {
        let recs = tab_recs(a.over@.content, t, d);
        let n = choose|n: int|
            {
                &&& #[trigger] first_stop(recs, a.floor@, a.strict@, a.max_seq, n)
                &&& cur.rest(a.over@.content) == (StreamV { recs: recs.skip(n), fault: None })
            };
        assert(first_stop(recs, b.floor@, b.strict@, b.max_seq, n));
    }

    /// Creates an unpositioned scan. Call [`seek`](Scan::seek) before
    /// [`next`](Scan::next).
    #[must_use]
    pub fn new() -> (r: Self)
        ensures
            r.wf(),
            !r.is_sought(),
    {
        Scan {
            end: KeyBound::empty(),
            has_end: false,
            max_seq: u64::MAX,
            sought: false,
            raw: [0;BLOCK],
            work: Cursor::empty(),
            mem_idx: 0,
            cursors: List::new(Parked::empty()),
            tabs: Ghost(Seq::empty()),
            floor: Ghost(Seq::empty()),
            strict: Ghost(false),
            over: Ghost(
                ScannedV { mem: Seq::empty(), content: Map::empty(), levels: Seq::empty() },
            ),
        }
    }

    /// What damage a scan may report.
    pub open spec fn scan_error<E>(e: Error<E>) -> bool {
        e is CorruptBlock || e is CorruptManifest || e is KeyTooLarge || e is ValueTooLarge
            || e is Device
    }

    /// Adds a cursor over `tref`, parked at the first entry `>= start` with
    /// `seq <= max_seq`. The caller key-range prunes; this resolves the
    /// table's block index to the starting data block. A table of range
    /// tombstones alone gets none.
    fn add_cursor<D: BlockDevice>(
        &mut self,
        device: &D,
        tref: &TableRef<KEY_MAX>,
        start: &[u8],
        Ghost(d): Ghost<DimsV>,
    ) -> (r: Result<(), Error<D::Error>>)
        requires
            old(self).wf(),
            D::BLOCK == BLOCK,
            BLOCK >= 512,
            d.block == BLOCK,
            d.key_max == KEY_MAX,
            d.val_max == VAL_MAX,
            old(self).floor@ == start@,
            !old(self).strict@,
            old(self).over@.content == device.content(),
            old(self).cursors@.len() < LEVELS * TABLES <= usize::MAX,
        ensures
            final(self).wf(),
            final(self).cursors@.len() <= old(self).cursors@.len() + 1,
            *final(self) == (Scan {
                raw: final(self).raw,
                work: final(self).work,
                cursors: final(self).cursors,
                tabs: final(self).tabs,
                ..*old(self)
            }),
            r matches Err(e) ==> Self::scan_error(e),
            r is Ok ==> {
                ||| {
                    &&& data_blocks_of(tref@) == Some(0u64)
                    &&& final(self).cursors@ == old(self).cursors@
                }
                ||| exists|cur: Parked<KEY_MAX, VAL_MAX>|
                    final(self).cursors@ == #[trigger] old(self).cursors@.push(cur) && reads_on(
                        device.content(),
                        tref@,
                        start@,
                        KEY_MAX,
                        VAL_MAX,
                        cur.rest(device.content()),
                    )
            },
            tab_sound(device.content(), tref@, d) ==> match r {
                Ok(()) => {
                    ||| {
                        &&& tab_recs(device.content(), tref@, d).len() == 0
                        &&& final(self).tabs@ == old(self).tabs@
                        &&& final(self).cursors@ == old(self).cursors@
                    }
                    ||| {
                        &&& final(self).tabs@ == old(self).tabs@.push(tref@)
                        &&& exists|cur: Parked<KEY_MAX, VAL_MAX>|
                            final(self).cursors@ == old(self).cursors@.push(cur)
                                && #[trigger] final(self).parked(d, tref@, cur)
                    }
                },
                Err(e) => e is Device,
            },
    {
        let ghost c = device.content();
        let ghost t = tref@;
        let ghost good = tab_sound(c, t, d);
        let ghost run = tab_run(c, t, d);
        let ghost recs = tab_recs(c, t, d);
        proof {
            if good {
                assert(is_run_of(run, c, t, d));
                assert(data_blocks_of(t) == Some(run.groups.len() as u64));
            }
        }
        match tref.data_blocks() {
            Some(n) => {
                if n == 0 {
                    proof {
                        if good {
                            assert(run.groups =~= Seq::<Seq<Rec>>::empty());
                        }
                    }
                    return Ok(());
                }
            },
            None => {
                return Err(Error::CorruptBlock { id: tref.first_block });
            },
        }
        let b: u64 = match start_block(device, &mut self.raw, tref, start, Ghost(d)) {
            Ok(b) => b,
            Err(e) => {
                return Err(e);
            },
        };
        match self.work.init_at(device, &mut self.raw, tref, b) {
            Ok(()) => {},
            Err(e) => {
                proof {
                    if good {
                        lemma_run_stream(run, c, d.block, d.bloom, KEY_MAX, VAL_MAX, b as int);
                    }
                }
                return Err(e);
            },
        }
        let ghost h = group_start(run.groups, b as int);
        let ghost s = self.work.rest(c);
        proof {
            if good {
                lemma_run_stream(run, c, d.block, d.bloom, KEY_MAX, VAL_MAX, b as int);
                lemma_group_start_mono(run.groups, b as int, run.groups.len() as int);
                assert(run.groups.take(run.groups.len() as int) =~= run.groups);
                assert(s.recs == recs.skip(h));
            }
        }
        match park_cursor(&mut self.work, device, &mut self.raw, start, false, self.max_seq) {
            Ok(()) => {},
            Err(e) => {
                return Err(e);
            },
        }
        let cur: Parked<KEY_MAX, VAL_MAX> = Parked::of(&self.work, Ghost(c));
        proof {
            assert(s == from_block(c, t, KEY_MAX, VAL_MAX, b));
            let n = choose|n: int|
                {
                    &&& #[trigger] first_stop(s.recs, start@, false, self.max_seq, n)
                    &&& cur.rest(c) == (StreamV { recs: s.recs.skip(n), fault: s.fault })
                };
            assert(later(s, cur.rest(c)));
            assert(reads_on(c, t, start@, KEY_MAX, VAL_MAX, cur.rest(c)));
            if good {
                let n = choose|n: int|
                    {
                        &&& #[trigger] first_stop(s.recs, start@, false, self.max_seq, n)
                        &&& cur.rest(c) == (StreamV { recs: s.recs.skip(n), fault: s.fault })
                    };
                assert(first_stop(recs, start@, false, self.max_seq, h + n)) by {
                    assert forall|g: int| 0 <= g < h + n implies !stops(
                        start@,
                        false,
                        self.max_seq,
                        #[trigger] recs[g],
                    ) by {
                        if g < h {
                            assert(lex_lt(run.recs()[g].key, start@));
                        } else {
                            assert(s.recs[g - h] == recs[g]);
                        }
                    }
                    if h + n < recs.len() {
                        assert(s.recs[n] == recs[h + n]);
                    }
                }
                assert(s.recs.skip(n) =~= recs.skip(h + n));
                assert(self.parked(d, t, cur));
            }
        }
        let ghost done = cur;
        let ghost before = *self;
        self.cursors.push(cur);
        self.tabs = Ghost(self.tabs@.push(t));
        proof {
            if good {
                Self::lemma_parked_same(&before, self, d, t, done);
            }
        }
        Ok(())
    }

    /// Parks the memtable head at the next point entry with
    /// `seq <= max_seq` at or past the floor.
    fn advance_mem<
        D: BlockDevice,
        const CAP: usize,
        const ARENA: usize,
        const BLOOM_BYTES: usize,
        const CACHE: usize,
    >(
        &mut self,
        db: &Db<D, BLOCK, KEY_MAX, VAL_MAX, CAP, ARENA, LEVELS, TABLES, BLOOM_BYTES, CACHE>,
        floor: &[u8],
        strict: bool,
    )
        requires
            old(self).wf(),
            db.wf(),
        ensures
            final(self).wf(),
            *final(self) == (Scan { mem_idx: final(self).mem_idx, ..*old(self) }),
            old(self).mem_idx <= final(self).mem_idx,
            final(self).mem_idx <= db.mem().len() || final(self).mem_idx == old(self).mem_idx,
            forall|g: int|
                old(self).mem_idx <= g < final(self).mem_idx ==> !stops(
                    floor@,
                    strict,
                    old(self).max_seq,
                    #[trigger] db.mem()[g],
                ),
            final(self).mem_idx < db.mem().len() ==> stops(
                floor@,
                strict,
                old(self).max_seq,
                db.mem()[final(self).mem_idx as int],
            ),
    {
        let ghost mem = db.mem();
        loop
            invariant
                self.wf(),
                db.wf(),
                mem == db.mem(),
                *self == (Scan { mem_idx: self.mem_idx, ..*old(self) }),
                old(self).mem_idx <= self.mem_idx,
                self.mem_idx <= mem.len() || self.mem_idx == old(self).mem_idx,
                forall|g: int|
                    old(self).mem_idx <= g < self.mem_idx ==> !stops(
                        floor@,
                        strict,
                        self.max_seq,
                        #[trigger] mem[g],
                    ),
            ensures
                self.mem_idx < mem.len() ==> stops(
                    floor@,
                    strict,
                    self.max_seq,
                    mem[self.mem_idx as int],
                ),
            decreases mem.len() - self.mem_idx,
        {
            match db.table.slot_view(self.mem_idx) {
                Some(e) => {
                    let past: bool = if strict {
                        bytes_lt(floor, e.key)
                    } else {
                        bytes_le(floor, e.key)
                    };
                    if e.seq <= self.max_seq && !e.range_del && past {
                        break;
                    }
                },
                None => {
                    break;
                },
            }
            proof {
                db.table.lemma_wf();
            }
            self.mem_idx = self.mem_idx + 1;
        }
    }

    /// What a scan of the database reads.
    pub open spec fn view_of<
        D: BlockDevice,
        const CAP: usize,
        const ARENA: usize,
        const BLOOM_BYTES: usize,
        const CACHE: usize,
    >(
        db: &Db<D, BLOCK, KEY_MAX, VAL_MAX, CAP, ARENA, LEVELS, TABLES, BLOOM_BYTES, CACHE>,
    ) -> ScannedV {
        ScannedV { mem: db.mem(), content: db.content(), levels: db.man().levels }
    }

    /// Why a scan of `[start, end)` is refused.
    pub open spec fn range_check<E>(start: Seq<u8>, end: Option<Seq<u8>>) -> Result<(), Error<E>> {
        if start.len() > KEY_MAX {
            Err(Error::KeyTooLarge { len: start.len() as usize, max: KEY_MAX })
        } else {
            match end {
                None => Ok(()),
                Some(e) => if e.len() == 0 {
                    Err(Error::EmptyKey)
                } else if e.len() > KEY_MAX {
                    Err(Error::KeyTooLarge { len: e.len() as usize, max: KEY_MAX })
                } else {
                    Ok(())
                },
            }
        }
    }

    /// Positions the scan at the first entry `>= start` and below `end`
    /// (exclusive; `None` scans to the last key), showing only mutations
    /// with `seq <= max_seq`. Pass a [`Db::snapshot`] watermark for a
    /// pinned read, or `u64::MAX` for the latest view. Prefix scans are
    /// `seek(db, prefix, Some(prefix_end), max_seq)`.
    ///
    /// An empty `start` scans from the first key. A `start` at or above
    /// `end` simply yields nothing. Re-seeking a scan is allowed and
    /// repositions every cursor from scratch.
    ///
    /// # Errors
    ///
    /// [`Error::NotOpen`] before [`open`](Db::open),
    /// [`Error::KeyTooLarge`] when a bound exceeds `KEY_MAX`,
    /// [`Error::EmptyKey`] for an empty `end` bound,
    /// [`Error::CorruptBlock`] on a torn index/data block or bad footer,
    /// [`Error::CorruptManifest`] on a malformed table range, or
    /// [`Error::Device`] on I/O failure.
    pub fn seek<
        D: BlockDevice,
        const CAP: usize,
        const ARENA: usize,
        const BLOOM_BYTES: usize,
        const CACHE: usize,
    >(
        &mut self,
        db: &Db<D, BLOCK, KEY_MAX, VAL_MAX, CAP, ARENA, LEVELS, TABLES, BLOOM_BYTES, CACHE>,
        start: &[u8],
        end: Option<&[u8]>,
        max_seq: u64,
    ) -> (r: Result<(), Error<D::Error>>)
        requires
            old(self).wf(),
            db.wf(),
        ensures
            final(self).wf(),
            ({
                let e = match end {
                    Some(x) => Some(x@),
                    None => None,
                };
                if !db.is_opened() {
                    r == Err::<(), Error<D::Error>>(Error::NotOpen)
                } else {
                    match Self::range_check::<D::Error>(start@, e) {
                        Err(x) => r == Err::<(), Error<D::Error>>(x),
                        Ok(()) => match r {
                            Ok(()) => {
                                &&& final(self).is_sought()
                                &&& final(self).scanned() == Self::view_of(db)
                                &&& final(self).limit() == max_seq
                                &&& forall|l: int, x: int|
                                    at(db.man().levels, l, x) && !Self::passed_over(
                                        db.man().levels[l][x],
                                        start@,
                                        e,
                                    ) ==> final(self).entered(
                                        #[trigger] db.man().levels[l][x],
                                        start@,
                                    )
                                &&& forall|k: Seq<u8>| #[trigger]
                                    final(self).ahead(k) == (lex_le(start@, k) && (e matches Some(
                                        x,
                                    ) ==> lex_lt(k, x)))
                                &&& db.sound() ==> final(self).positioned(
                                    Db::<
                                        D,
                                        BLOCK,
                                        KEY_MAX,
                                        VAL_MAX,
                                        CAP,
                                        ARENA,
                                        LEVELS,
                                        TABLES,
                                        BLOOM_BYTES,
                                        CACHE,
                                    >::dims(),
                                )
                            },
                            Err(x) => Self::scan_error(x) && (db.sound() ==> x is Device),
                        },
                    }
                }
            }),
    {
        match db.ensure_open() {
            Ok(()) => {},
            Err(e) => {
                return Err(e);
            },
        }
        if start.len() > KEY_MAX {
            return Err(Error::KeyTooLarge { len: start.len(), max: KEY_MAX });
        }
        proof {
            db.lemma_wf();
        }
        let (has_end, bound): (bool, KeyBound<KEY_MAX>) = match end {
            Some(e) => {
                if e.len() == 0 {
                    return Err(Error::EmptyKey);
                }
                match KeyBound::from_slice(e) {
                    Some(b) => (true, b),
                    None => {
                        return Err(Error::KeyTooLarge { len: e.len(), max: KEY_MAX });
                    },
                }
            },
            None => (false, KeyBound::empty()),
        };
        self.end = bound;
        self.has_end = has_end;
        self.max_seq = max_seq;
        self.sought = true;
        self.cursors.clear();
        self.tabs = Ghost(Seq::empty());
        self.floor = Ghost(start@);
        self.strict = Ghost(false);
        self.over = Ghost(Self::view_of(db));
        // Memtable cursor: first point at/after `start`.
        self.mem_idx = 0;
        self.advance_mem(db, start, false);
        self.add_cursors(db, start)
    }

    /// One cursor per table overlapping the range. The merge resolves L0
    /// overlaps and cross-level duplication; order here is irrelevant.
    #[verifier::rlimit(40)]
    fn add_cursors<
        D: BlockDevice,
        const CAP: usize,
        const ARENA: usize,
        const BLOOM_BYTES: usize,
        const CACHE: usize,
    >(
        &mut self,
        db: &Db<D, BLOCK, KEY_MAX, VAL_MAX, CAP, ARENA, LEVELS, TABLES, BLOOM_BYTES, CACHE>,
        start: &[u8],
    ) -> (r: Result<(), Error<D::Error>>)
        requires
            old(self).wf(),
            db.wf(),
            old(self).tabs@.len() == 0,
            old(self).floor@ == start@,
            !old(self).strict@,
            old(self).sought,
            old(self).over@ == Self::view_of(db),
            first_stop(
                db.mem(),
                start@,
                false,
                old(self).max_seq,
                old(self).mem_idx as int,
            ),
        ensures
            final(self).wf(),
            *final(self) == (Scan {
                raw: final(self).raw,
                work: final(self).work,
                cursors: final(self).cursors,
                tabs: final(self).tabs,
                ..*old(self)
            }),
            r matches Err(e) ==> Self::scan_error(e) && (db.sound() ==> e is Device),
            r is Ok ==> final(self).enters(db.man().levels, start@, LEVELS as int, 0),
            r is Ok && db.sound() ==> final(self).positioned(
                Db::<
                    D,
                    BLOCK,
                    KEY_MAX,
                    VAL_MAX,
                    CAP,
                    ARENA,
                    LEVELS,
                    TABLES,
                    BLOOM_BYTES,
                    CACHE,
                >::dims(),
            ),
    {
        let ghost d = Db::<
            D,
            BLOCK,
            KEY_MAX,
            VAL_MAX,
            CAP,
            ARENA,
            LEVELS,
            TABLES,
            BLOOM_BYTES,
            CACHE,
        >::dims();
        let ghost good = db.sound();
        let ghost levels = db.man().levels;
        let ghost c = db.content();
        proof {
            db.lemma_wf();
            db.manifest.lemma_wf();
            assert(levels.take(0) =~= Seq::<Seq<TabV>>::empty());
        }
        let mut li: usize = 0;
        while li < LEVELS
            invariant
                li <= LEVELS,
                db.wf(),
                d == Db::<
                    D,
                    BLOCK,
                    KEY_MAX,
                    VAL_MAX,
                    CAP,
                    ARENA,
                    LEVELS,
                    TABLES,
                    BLOOM_BYTES,
                    CACHE,
                >::dims(),
                good == db.sound(),
                levels == db.man().levels,
                levels.len() == LEVELS,
                c == db.content(),
                D::BLOCK == BLOCK,
                BLOCK >= 512,
                self.wf(),
                self.floor@ == start@,
                !self.strict@,
                self.over@ == Self::view_of(db),
                *self == (Scan {
                    raw: self.raw,
                    work: self.work,
                    cursors: self.cursors,
                    tabs: self.tabs,
                    ..*old(self)
                }),
                self.enters(levels, start@, li as int, 0),
                good ==> self.fills(d, levels, li as int, 0),
                self.cursors@.len() <= total_tables(levels.take(li as int)),
                total_tables(levels) <= LEVELS * TABLES <= usize::MAX,
            decreases LEVELS - li,
        {
            proof {
                lemma_total_take(levels, li + 1);
                lemma_total_snoc(levels.take(li as int), levels[li as int]);
                assert(levels.take(li + 1) =~= levels.take(li as int).push(levels[li as int]));
            }
            match db.manifest.level(li) {
                Some(ts) => {
                    let mut i: usize = 0;
                    while i < ts.len()
                        invariant
                            i <= ts@.len(),
                            li < LEVELS,
                            db.wf(),
                            d == Db::<
                                D,
                                BLOCK,
                                KEY_MAX,
                                VAL_MAX,
                                CAP,
                                ARENA,
                                LEVELS,
                                TABLES,
                                BLOOM_BYTES,
                                CACHE,
                            >::dims(),
                            good == db.sound(),
                            levels == db.man().levels,
                            levels.len() == LEVELS,
                            c == db.content(),
                            D::BLOCK == BLOCK,
                            BLOCK >= 512,
                            crate::manifest::tab_views(ts@) == levels[li as int],
                            crate::manifest::refs_wf(ts@),
                            self.wf(),
                            self.floor@ == start@,
                            !self.strict@,
                            self.over@ == Self::view_of(db),
                            *self == (Scan {
                                raw: self.raw,
                                work: self.work,
                                cursors: self.cursors,
                                tabs: self.tabs,
                                ..*old(self)
                            }),
                            self.enters(levels, start@, li as int, i as int),
                            good ==> self.fills(d, levels, li as int, i as int),
                            self.cursors@.len() <= total_tables(levels.take(li as int)) + i,
                            total_tables(levels.take(li as int)) + ts@.len() <= total_tables(
                                levels,
                            ),
                            total_tables(levels) <= LEVELS * TABLES <= usize::MAX,
                        decreases ts@.len() - i,
                    {
                        let tref: TableRef<KEY_MAX> = ts[i];
                        let ghost before = *self;
                        proof {
                            assert(ts@[i as int].wf());
                            assert(levels[li as int][i as int] == tref@);
                            assert(at(levels, li as int, i as int));
                            if good {
                                assert(tab_sound(c, levels[li as int][i as int], d));
                            }
                        }
                        // Key-range prune: no I/O for tables outside the
                        // scan.
                        let below: bool = bytes_lt(tref.last_key.as_slice(), start);
                        let above: bool = self.has_end && !bytes_lt(
                            tref.first_key.as_slice(),
                            self.end.as_slice(),
                        );
                        if below || above {
                            proof {
                                assert(Self::passed_over(tref@, start@, self.bound()));
                                if good {
                                    self.lemma_pruned(d, levels, c, li as int, i as int);
                                    self.lemma_fills_skip(d, levels, li as int, i as int);
                                }
                            }
                        } else {
                            match self.add_cursor(db.wal.device(), &tref, start, Ghost(d)) {
                                Ok(()) => {},
                                Err(e) => {
                                    return Err(e);
                                },
                            }
                            proof {
                                Self::lemma_enters_push(
                                    &before,
                                    self,
                                    levels,
                                    start@,
                                    li as int,
                                    i as int,
                                );
                                if good {
                                    Self::lemma_fills_push(
                                        &before,
                                        self,
                                        d,
                                        levels,
                                        li as int,
                                        i as int,
                                    );
                                }
                            }
                        }
                        i = i + 1;
                    }
                    proof {
                        if good {
                            self.lemma_fills_level(d, levels, li as int);
                        }
                    }
                },
                None => {},
            }
            li = li + 1;
        }
        proof {
            if good {
                self.lemma_fills_all(d, levels);
            }
        }
        Ok(())
    }

    /// The end of the range.
    spec fn bound(&self) -> Option<Seq<u8>> {
        if self.has_end {
            Some(self.end@)
        } else {
            None
        }
    }

    /// The tables of the levels before `l` and the first `n` of level `l`
    /// are passed over or have a cursor.
    spec fn enters(&self, levels: Seq<Seq<TabV>>, start: Seq<u8>, l: int, n: int) -> bool {
        forall|m: int, x: int|
            at(levels, m, x) && (m < l || (m == l && x < n)) && !Self::passed_over(
                levels[m][x],
                start,
                self.bound(),
            ) ==> self.entered(#[trigger] levels[m][x], start)
    }

    /// A cursor more, and the next table is passed over or it reads on in it.
    proof fn lemma_enters_push(
        a: &Self,
        b: &Self,
        levels: Seq<Seq<TabV>>,
        start: Seq<u8>,
        l: int,
        i: int,
    )
        requires
            a.enters(levels, start, l, i),
            b.over == a.over,
            b.bound() == a.bound(),
            ({
                let c = a.over@.content;
                ||| {
                    &&& data_blocks_of(levels[l][i]) == Some(0u64)
                    &&& b.cursors@ == a.cursors@
                }
                ||| exists|cur: Parked<KEY_MAX, VAL_MAX>|
                    b.cursors@ == #[trigger] a.cursors@.push(cur) && reads_on(
                        c,
                        levels[l][i],
                        start,
                        KEY_MAX,
                        VAL_MAX,
                        cur.rest(c),
                    )
            }),
        ensures
            b.enters(levels, start, l, i + 1),
    {
        let c = a.over@.content;
        let n = a.cursors@.len() as int;
        assert forall|m: int, x: int|
            at(levels, m, x) && (m < l || (m == l && x < i + 1)) && !Self::passed_over(
                levels[m][x],
                start,
                b.bound(),
            ) implies b.entered(#[trigger] levels[m][x], start) by {
            if m == l && x == i {
                assert(b.pending()[n] == b.cursors@[n].rest(c));
                assert(reads_on(c, levels[l][i], start, KEY_MAX, VAL_MAX, b.pending()[n]));
            } else {
                assert(a.entered(levels[m][x], start));
                let j = choose|j: int|
                    0 <= j < a.pending().len() && reads_on(
                        c,
                        levels[m][x],
                        start,
                        KEY_MAX,
                        VAL_MAX,
                        #[trigger] a.pending()[j],
                    );
                assert(b.cursors@[j] == a.cursors@[j]);
                assert(b.pending()[j] == a.pending()[j]);
            }
        }
    }

    /// Table `i` of level `l` has a cursor, or holds nothing ahead.
    spec fn covered(&self, d: DimsV, levels: Seq<Seq<TabV>>, l: int, i: int) -> bool {
        let recs = tab_recs(self.over@.content, levels[l][i], d);
        self.tabs@.contains(levels[l][i]) || forall|g: int|
            0 <= g < recs.len() ==> !self.ahead((#[trigger] recs[g]).key)
    }

    /// The cursors are parked, and the tables of the levels before `l` and
    /// the first `n` of level `l` are covered.
    spec fn fills(&self, d: DimsV, levels: Seq<Seq<TabV>>, l: int, n: int) -> bool {
        &&& forall|i: int|
            0 <= i < self.tabs@.len() ==> self.parked(d, #[trigger] self.tabs@[i], self.cursors@[i])
        &&& forall|i: int|
            0 <= i < self.tabs@.len() ==> in_levels(levels, #[trigger] self.tabs@[i])
        &&& forall|m: int, x: int|
            at(levels, m, x) && (m < l || (m == l && x < n)) ==> #[trigger] self.covered(
                d,
                levels,
                m,
                x,
            )
    }

    proof fn lemma_fills_skip(&self, d: DimsV, levels: Seq<Seq<TabV>>, l: int, i: int)
        requires
            self.fills(d, levels, l, i),
            self.covered(d, levels, l, i),
        ensures
            self.fills(d, levels, l, i + 1),
    {
        assert forall|m: int, x: int|
            at(levels, m, x) && (m < l || (m == l && x < i + 1)) implies #[trigger] self.covered(
            d,
            levels,
            m,
            x,
        ) by {}
    }

    proof fn lemma_fills_level(&self, d: DimsV, levels: Seq<Seq<TabV>>, l: int)
        requires
            self.fills(d, levels, l, levels[l].len() as int),
        ensures
            self.fills(d, levels, l + 1, 0),
    {
        assert forall|m: int, x: int|
            at(levels, m, x) && (m < l + 1 || (m == l + 1 && x < 0)) implies #[trigger] self.covered(
            d,
            levels,
            m,
            x,
        ) by {}
    }

    proof fn lemma_fills_all(&self, d: DimsV, levels: Seq<Seq<TabV>>)
        requires
            self.sought,
            self.fills(d, levels, levels.len() as int, 0),
            levels == self.over@.levels,
            first_stop(
                self.over@.mem,
                self.floor@,
                self.strict@,
                self.max_seq,
                self.mem_idx as int,
            ),
        ensures
            self.positioned(d),
    {
        let v = self.over@;
        assert forall|l: int, x: int| at(v.levels, l, x) implies self.tabs@.contains(
            #[trigger] v.levels[l][x],
        ) || forall|g: int|
            0 <= g < tab_recs(v.content, v.levels[l][x], d).len() ==> !self.ahead(
                (#[trigger] tab_recs(v.content, v.levels[l][x], d)[g]).key,
            ) by {
            assert(self.covered(d, levels, l, x));
        }
    }

    /// One more table is covered once its cursor was added.
    proof fn lemma_fills_push(
        a: &Self,
        b: &Self,
        d: DimsV,
        levels: Seq<Seq<TabV>>,
        l: int,
        i: int,
    )
        requires
            a.wf(),
            b.wf(),
            a.fills(d, levels, l, i),
            at(levels, l, i),
            *b == (Scan {
                raw: b.raw,
                work: b.work,
                cursors: b.cursors,
                tabs: b.tabs,
                ..*a
            }),
            ({
                ||| {
                    &&& tab_recs(a.over@.content, levels[l][i], d).len() == 0
                    &&& b.tabs@ == a.tabs@
                    &&& b.cursors@ == a.cursors@
                }
                ||| {
                    &&& b.tabs@ == a.tabs@.push(levels[l][i])
                    &&& exists|cur: Parked<KEY_MAX, VAL_MAX>|
                        b.cursors@ == a.cursors@.push(cur) && #[trigger] b.parked(
                            d,
                            levels[l][i],
                            cur,
                        )
                }
            }),
        ensures
            b.fills(d, levels, l, i + 1),
    {
        let n = a.tabs@.len() as int;
        assert forall|x: int| 0 <= x < b.tabs@.len() implies b.parked(
            d,
            #[trigger] b.tabs@[x],
            b.cursors@[x],
        ) && in_levels(levels, b.tabs@[x]) by {
            if x < n {
                assert(b.tabs@[x] == a.tabs@[x]);
                assert(b.cursors@[x] == a.cursors@[x]);
                assert(a.parked(d, a.tabs@[x], a.cursors@[x]));
                Self::lemma_parked_same(a, b, d, a.tabs@[x], a.cursors@[x]);
            } else {
                assert(levels[l][i] == b.tabs@[x]);
            }
        }
        assert forall|m: int, x: int|
            at(levels, m, x) && (m < l || (m == l && x < i + 1)) implies #[trigger] b.covered(
            d,
            levels,
            m,
            x,
        ) by {
            if m == l && x == i {
                if b.tabs@.len() > n {
                    assert(b.tabs@[n] == levels[l][i]);
                }
            } else {
                assert(a.covered(d, levels, m, x));
                if a.tabs@.contains(levels[m][x]) {
                    let y = a.tabs@.index_of(levels[m][x]);
                    assert(b.tabs@[y] == levels[m][x]);
                }
            }
        }
    }

    /// A table outside the range holds nothing ahead.
    proof fn lemma_pruned(
        &self,
        d: DimsV,
        levels: Seq<Seq<TabV>>,
        c: Map<u64, Seq<u8>>,
        l: int,
        i: int,
    )
        requires
            c == self.over@.content,
            !self.strict@,
            tab_sound(c, levels[l][i], d),
            lex_lt(levels[l][i].last_key, self.floor@) || (self.has_end && !lex_lt(
                levels[l][i].first_key,
                self.end@,
            )),
        ensures
            self.covered(d, levels, l, i),
    {
        let t = levels[l][i];
        let recs = tab_recs(c, t, d);
        let run = tab_run(c, t, d);
        assert(is_run_of(run, c, t, d));
        assert forall|g: int| 0 <= g < recs.len() implies !self.ahead((#[trigger] recs[g]).key) by {
            let k = recs[g].key;
            assert(super::view::rec_inside(t, run.recs()[g]));
            if lex_lt(t.last_key, self.floor@) {
                crate::bytes::lemma_lex_le_lt(k, t.last_key, self.floor@);
                crate::bytes::lemma_lex_asymmetric(k, self.floor@);
            } else if lex_lt(k, self.end@) {
                crate::bytes::lemma_lex_le_lt(t.first_key, k, self.end@);
            }
        }
    }

    /// The block and key sizes of the database.
    pub open spec fn dims_of<
        D: BlockDevice,
        const CAP: usize,
        const ARENA: usize,
        const BLOOM_BYTES: usize,
        const CACHE: usize,
    >(
        db: &Db<D, BLOCK, KEY_MAX, VAL_MAX, CAP, ARENA, LEVELS, TABLES, BLOOM_BYTES, CACHE>,
    ) -> DimsV {
        Db::<
            D,
            BLOCK,
            KEY_MAX,
            VAL_MAX,
            CAP,
            ARENA,
            LEVELS,
            TABLES,
            BLOOM_BYTES,
            CACHE,
        >::dims()
    }

    /// `k` is the first key ahead that has a value.
    pub open spec fn is_next(&self, d: DimsV, k: Seq<u8>) -> bool {
        &&& self.ahead(k)
        &&& shown(self.scanned(), d, self.limit(), k) is Some
        &&& forall|o: Seq<u8>| #[trigger]
            self.ahead(o) && shown(self.scanned(), d, self.limit(), o) is Some ==> lex_le(k, o)
    }

    /// No key ahead has a value.
    pub open spec fn drained(&self, d: DimsV) -> bool {
        forall|k: Seq<u8>| #[trigger]
            self.ahead(k) ==> shown(self.scanned(), d, self.limit(), k) is None
    }

    /// The records that a source is over.
    spec fn src_recs(&self, d: DimsV, src: int) -> Seq<Rec> {
        if src == 0 {
            self.over@.mem
        } else {
            tab_recs(self.over@.content, self.tabs@[src - 1], d)
        }
    }

    /// A source offers its head for the head's key, and nothing for a key
    /// before that.
    proof fn lemma_head_first(&self, d: DimsV, src: int, k: Seq<u8>)
        requires
            self.wf(),
            self.positioned(d),
            sources_sorted(self.over@, d),
            0 <= src <= self.tabs@.len(),
            beyond(self.floor@, self.strict@, k),
        ensures
            ({
                let recs = self.src_recs(d, src);
                match self.head(self.over@.mem, src) {
                    Some(e) => {
                        &&& recs.contains(e)
                        &&& stops(self.floor@, self.strict@, self.max_seq, e)
                        &&& e.key == k ==> first_at(recs, k, self.max_seq) == Some(e)
                        &&& lex_lt(k, e.key) ==> first_at(recs, k, self.max_seq) is None
                    },
                    None => first_at(recs, k, self.max_seq) is None,
                }
            }),
    {
        let v = self.over@;
        let recs = self.src_recs(d, src);
        if src == 0 {
            lemma_stop_first(recs, self.floor@, self.strict@, self.max_seq, self.mem_idx as int, k);
            if self.mem_idx < recs.len() {
                assert(recs[self.mem_idx as int] == self.head(v.mem, src)->0);
            }
        } else {
            let t = self.tabs@[src - 1];
            let cur = self.cursors@[src - 1];
            assert(self.parked(d, t, cur));
            let n = choose|n: int|
                {
                    &&& #[trigger] first_stop(recs, self.floor@, self.strict@, self.max_seq, n)
                    &&& cur.rest(v.content) == (StreamV { recs: recs.skip(n), fault: None })
                };
            cur.lemma_head(v.content);
            assert(in_levels(v.levels, t));
            let (l, x) = choose|l: int, x: int| at(v.levels, l, x) && #[trigger] v.levels[l][x] == t;
            assert(key_sorted(tab_recs(v.content, v.levels[l][x], d)));
            lemma_stop_first(recs, self.floor@, self.strict@, self.max_seq, n, k);
            if n < recs.len() {
                assert(recs.skip(n)[0] == recs[n]);
            }
        }
    }

    /// Source `w` holds the lowest head key, and the newest head on it.
    spec fn leads(&self, mem: Seq<Rec>, w: int) -> bool {
        &&& 0 <= w <= self.tabs@.len()
        &&& self.head(mem, w) is Some
        &&& forall|src: int|
            0 <= src <= self.tabs@.len() ==> (#[trigger] self.head(mem, src) matches Some(h) ==> {
                &&& lex_le(self.head(mem, w)->0.key, h.key)
                &&& h.key == self.head(mem, w)->0.key ==> h.seq <= self.head(mem, w)->0.seq
            })
    }

    /// Every table's offer for a key ahead is what its source says.
    proof fn lemma_offer(&self, d: DimsV, l: int, x: int, k: Seq<u8>) -> (src: int)
        requires
            self.wf(),
            self.positioned(d),
            at(self.over@.levels, l, x),
            self.ahead(k),
        ensures
            -1 <= src <= self.tabs@.len(),
            src != 0,
            src == -1 ==> first_at(
                tab_recs(self.over@.content, self.over@.levels[l][x], d),
                k,
                self.max_seq,
            ) is None,
            src > 0 ==> self.tabs@[src - 1] == self.over@.levels[l][x],
    {
        let v = self.over@;
        let t = v.levels[l][x];
        let recs = tab_recs(v.content, t, d);
        if self.tabs@.contains(t) {
            self.tabs@.index_of(t) + 1
        } else {
            lemma_first_at(recs, k, self.max_seq);
            if first_at(recs, k, self.max_seq) is Some {
                let i = choose|i: int| #[trigger]
                    is_hit(recs, k, self.max_seq, i) && recs[i] == first_at(
                        recs,
                        k,
                        self.max_seq,
                    )->0;
                assert(is_hit(recs, k, self.max_seq, i));
                assert(!self.ahead(recs[i].key));
            }
            -1
        }
    }

    /// A key ahead that every head lies past is not held, and has no value.
    proof fn lemma_gap(&self, d: DimsV, k: Seq<u8>)
        requires
            self.wf(),
            self.positioned(d),
            sources_sorted(self.over@, d),
            agree(self.over@, d),
            numbered(self.over@, d),
            self.ahead(k),
            forall|src: int|
                0 <= src <= self.tabs@.len() ==> (#[trigger] self.head(self.over@.mem, src) matches Some(
                    h,
                ) ==> lex_lt(k, h.key)),
        ensures
            shown(self.over@, d, self.max_seq, k) is None,
            !held(self.over@, d, self.max_seq, k),
    {
        let v = self.over@;
        self.lemma_head_first(d, 0, k);
        assert(self.head(v.mem, 0) is None || lex_lt(k, self.head(v.mem, 0)->0.key));
        assert forall|l: int, x: int| at(v.levels, l, x) implies first_at(
            tab_recs(v.content, #[trigger] v.levels[l][x], d),
            k,
            self.max_seq,
        ) is None by {
            let src = self.lemma_offer(d, l, x, k);
            if src > 0 {
                self.lemma_head_first(d, src, k);
                assert(self.head(v.mem, src) is None || lex_lt(k, self.head(v.mem, src)->0.key));
            }
        }
        lemma_best(v, d, self.max_seq, k, None);
    }

    /// The leading head's key is held, and the head is what a read of it
    /// comes to.
    proof fn lemma_lead(&self, d: DimsV, w: int)
        requires
            self.wf(),
            self.positioned(d),
            sources_sorted(self.over@, d),
            agree(self.over@, d),
            numbered(self.over@, d),
            self.leads(self.over@.mem, w),
            self.ahead(self.head(self.over@.mem, w)->0.key),
        ensures
            held(self.over@, d, self.max_seq, self.head(self.over@.mem, w)->0.key),
            ({
                let v = self.over@;
                let e = self.head(v.mem, w)->0;
                shown(v, d, self.max_seq, e.key) == if e.tombstone || hidden(
                    v.mem,
                    v.content,
                    v.levels,
                    d,
                    e.key,
                    self.max_seq,
                    e.seq,
                ) {
                    None
                } else {
                    Some(e.val)
                }
            }),
    {
        let v = self.over@;
        let e = self.head(v.mem, w)->0;
        let k = e.key;
        assert forall|src: int| 0 <= src <= self.tabs@.len() implies (first_at(
            #[trigger] self.src_recs(d, src),
            k,
            self.max_seq,
        ) matches Some(f) ==> f.seq <= e.seq) by {
            self.lemma_head_first(d, src, k);
            match self.head(v.mem, src) {
                Some(h) => {
                    assert(lex_le(k, h.key));
                    crate::bytes::lemma_lex_total(k, h.key);
                },
                None => {},
            }
        }
        self.lemma_head_first(d, w, k);
        assert(first_at(self.src_recs(d, w), k, self.max_seq) == Some(e));
        if w > 0 {
            let t = self.tabs@[w - 1];
            assert(in_levels(v.levels, t));
            let (l, x) = choose|l: int, x: int| at(v.levels, l, x) && #[trigger] v.levels[l][x] == t;
            assert(first_at(tab_recs(v.content, v.levels[l][x], d), k, self.max_seq) == Some(e));
        }
        assert(self.src_recs(d, 0) == v.mem);
        assert forall|l: int, x: int| at(v.levels, l, x) implies (first_at(
            tab_recs(v.content, #[trigger] v.levels[l][x], d),
            k,
            self.max_seq,
        ) matches Some(f) ==> f.seq <= e.seq) by {
            let src = self.lemma_offer(d, l, x, k);
            if src > 0 {
                assert(self.src_recs(d, src) == tab_recs(v.content, v.levels[l][x], d));
            }
        }
        lemma_best(v, d, self.max_seq, k, Some(e));
        lemma_hidden(v, d, self.max_seq, k, e.seq);
    }

    /// The head of one source: the memtable or a cursor.
    fn head_view<
        'a,
        D: BlockDevice,
        const CAP: usize,
        const ARENA: usize,
        const BLOOM_BYTES: usize,
        const CACHE: usize,
    >(&'a self, db: &'a Db<D, BLOCK, KEY_MAX, VAL_MAX, CAP, ARENA, LEVELS, TABLES, BLOOM_BYTES, CACHE>, src: usize) -> (r: Option<Head<'a>>)
        requires
            self.wf(),
            db.wf(),
            src <= self.tabs@.len(),
        ensures
            match r {
                Some(h) => self.head(db.mem(), src as int) matches Some(e) && h.shows(e),
                None => self.head(db.mem(), src as int) is None,
            },
    {
        if src == 0 {
            match db.table.slot_view(self.mem_idx) {
                Some(e) => Some(
                    Head { key: e.key, val: e.val, seq: e.seq, tombstone: e.tombstone },
                ),
                None => None,
            }
        } else {
            let cur: &Parked<KEY_MAX, VAL_MAX> = self.cursors.at(src - 1);
            if cur.live() {
                Some(
                    Head {
                        key: cur.key(),
                        val: cur.val(),
                        seq: cur.seq(),
                        tombstone: cur.tombstone(),
                    },
                )
            } else {
                None
            }
        }
    }

    /// The source of the minimum live head key, the newest of them where
    /// several sit on it, or `None` when every source is exhausted.
    fn min_src<
        D: BlockDevice,
        const CAP: usize,
        const ARENA: usize,
        const BLOOM_BYTES: usize,
        const CACHE: usize,
    >(&self, db: &Db<D, BLOCK, KEY_MAX, VAL_MAX, CAP, ARENA, LEVELS, TABLES, BLOOM_BYTES, CACHE>) -> (r: Option<usize>)
        requires
            self.wf(),
            db.wf(),
        ensures
            match r {
                Some(w) => self.leads(db.mem(), w as int),
                None => forall|src: int|
                    0 <= src <= self.tabs@.len() ==> #[trigger] self.head(db.mem(), src) is None,
            },
    {
        let ghost mem = db.mem();
        let total: usize = self.cursors.len();
        let mut best: Option<usize> = None;
        let mut src: usize = 0;
        loop
            invariant
                self.wf(),
                db.wf(),
                mem == db.mem(),
                total == self.tabs@.len(),
                total == self.cursors@.len(),
                src <= total,
                match best {
                    Some(w) => {
                        &&& w < src
                        &&& self.head(mem, w as int) is Some
                        &&& forall|i: int|
                            0 <= i < src ==> (#[trigger] self.head(mem, i) matches Some(h) ==> {
                                &&& lex_le(self.head(mem, w as int)->0.key, h.key)
                                &&& h.key == self.head(mem, w as int)->0.key ==> h.seq
                                    <= self.head(mem, w as int)->0.seq
                            })
                    },
                    None => forall|i: int| 0 <= i < src ==> #[trigger] self.head(mem, i) is None,
                },
            decreases total - src,
        {
            match self.head_view(db, src) {
                Some(h) => {
                    let better: bool = match best {
                        Some(w) => match self.head_view(db, w) {
                            Some(o) => bytes_lt(h.key, o.key) || (bytes_eq(h.key, o.key) && h.seq
                                > o.seq),
                            None => true,
                        },
                        None => true,
                    };
                    proof {
                        crate::bytes::lemma_lex_irreflexive(h.key@);
                        if best is Some && better {
                            let o = self.head(mem, best->0 as int)->0;
                            assert forall|i: int| 0 <= i < src implies (#[trigger] self.head(
                                mem,
                                i,
                            ) matches Some(g) ==> {
                                &&& lex_le(h.key@, g.key)
                                &&& g.key == h.key@ ==> g.seq <= h.seq
                            }) by {
                                if self.head(mem, i) is Some {
                                    let g = self.head(mem, i)->0;
                                    assert(lex_le(o.key, g.key));
                                    if lex_lt(h.key@, o.key) {
                                        crate::bytes::lemma_lex_lt_le(h.key@, o.key, g.key);
                                        crate::bytes::lemma_lex_asymmetric(h.key@, g.key);
                                    }
                                }
                            }
                        }
                    }
                    if better {
                        best = Some(src);
                    }
                },
                None => {},
            }
            if src == total {
                return best;
            }
            src = src + 1;
        }
    }

    /// What the cursors have left to yield.
    spec fn streams(&self, c: Map<u64, Seq<u8>>) -> Seq<StreamV> {
        Seq::new(self.cursors@.len(), |i: int| self.cursors@[i].rest(c))
    }

    /// Entries that the sources have left.
    spec fn left(&self) -> nat {
        let mem = self.over@.mem;
        let m: nat = if self.mem_idx < mem.len() {
            (mem.len() - self.mem_idx) as nat
        } else {
            0
        };
        m + left_in(self.streams(self.over@.content))
    }

    /// Advances every head currently sitting on `key`, the memtable
    /// position and each live table cursor, so the next `next()` call sees
    /// a fresh minimum key. A source may hold several versions of the key,
    /// newest first: each re-parks past all of them.
    fn advance_past_key<
        D: BlockDevice,
        const CAP: usize,
        const ARENA: usize,
        const BLOOM_BYTES: usize,
        const CACHE: usize,
    >(&mut self, db: &Db<D, BLOCK, KEY_MAX, VAL_MAX, CAP, ARENA, LEVELS, TABLES, BLOOM_BYTES, CACHE>, key: &[u8], Ghost(d): Ghost<DimsV>, Ghost(w): Ghost<int>) -> (r:
        Result<(), Error<D::Error>>)
        requires
            old(self).wf(),
            db.wf(),
            old(self).over@ == Self::view_of(db),
            old(self).leads(db.mem(), w),
            old(self).head(db.mem(), w)->0.key == key@,
        ensures
            final(self).wf(),
            *final(self) == (Scan {
                raw: final(self).raw,
                work: final(self).work,
                mem_idx: final(self).mem_idx,
                cursors: final(self).cursors,
                floor: final(self).floor,
                strict: final(self).strict,
                ..*old(self)
            }),
            r is Ok ==> final(self).floor@ == key@ && final(self).strict@ && final(self).left()
                < old(self).left(),
            r is Ok ==> all_later(old(self).pending(), final(self).pending()),
            r matches Err(e) ==> Self::scan_error(e) && (e is Device || one_fails(
                old(self).pending(),
                e,
                KEY_MAX,
                VAL_MAX,
            )),
            old(self).positioned(d) && beyond(old(self).floor@, old(self).strict@, key@) ==> match r {
                Ok(()) => final(self).positioned(d),
                Err(e) => e is Device,
            },
    {
        let ghost a = *self;
        let ghost c = db.content();
        let ghost good = a.positioned(d) && beyond(a.floor@, a.strict@, key@);
        let max_seq: u64 = self.max_seq;
        proof {
            db.lemma_wf();
        }
        self.advance_mem(db, key, true);
        let ghost at_mem = self.mem_idx;
        let mut i: usize = 0;
        while i < self.cursors.len()
            invariant
                db.wf(),
                c == db.content(),
                c == a.over@.content,
                D::BLOCK == BLOCK,
                a == *old(self),
                a.wf(),
                self.wf(),
                max_seq == a.max_seq,
                self.mem_idx == at_mem,
                *self == (Scan {
                    raw: self.raw,
                    work: self.work,
                    mem_idx: self.mem_idx,
                    cursors: self.cursors,
                    ..a
                }),
                self.cursors@.len() == a.cursors@.len(),
                i <= self.cursors@.len(),
                forall|j: int|
                    0 <= j < i ==> moved(
                        #[trigger] a.cursors@[j],
                        self.cursors@[j],
                        c,
                        key@,
                        max_seq,
                    ),
                forall|j: int| i <= j < self.cursors@.len() ==> self.cursors@[j] == a.cursors@[j],
                good == (a.positioned(d) && beyond(a.floor@, a.strict@, key@)),
            decreases self.cursors@.len() - i,
        {
            let ghost before = self.cursors@;
            match move_parked(
                self.cursors.at_mut(i),
                &mut self.work,
                db.wal.device(),
                &mut self.raw,
                key,
                true,
                max_seq,
            ) {
                Ok(()) => {},
                Err(e) => {
                    proof {
                        if !(e is Device) {
                            assert(a.pending()[i as int] == a.cursors@[i as int].rest(c));
                            assert(fails_with(a.pending()[i as int], e, KEY_MAX, VAL_MAX));
                        }
                        if good {
                            assert(a.parked(d, a.tabs@[i as int], a.cursors@[i as int]));
                        }
                    }
                    return Err(e);
                },
            }
            proof {
                assert(before[i as int] == a.cursors@[i as int]);
                assert(moved(a.cursors@[i as int], self.cursors@[i as int], c, key@, max_seq));
            }
            i = i + 1;
        }
        self.floor = Ghost(key@);
        self.strict = Ghost(true);
        proof {
            assert forall|j: int| 0 <= j < a.pending().len() implies later(
                #[trigger] a.pending()[j],
                self.pending()[j],
            ) by {
                assert(moved(a.cursors@[j], self.cursors@[j], c, key@, max_seq));
            }
            Self::lemma_moved_left(&a, self, key@, w);
            if good {
                Self::lemma_moved_positioned(&a, self, d, key@);
            }
        }
        Ok(())
    }

    /// Every source moved past the key, and the leading one held it: fewer
    /// entries are left.
    proof fn lemma_moved_left(a: &Self, b: &Self, key: Seq<u8>, w: int)
        requires
            a.wf(),
            a.over == b.over,
            a.cursors@.len() == b.cursors@.len(),
            a.leads(a.over@.mem, w),
            a.head(a.over@.mem, w)->0.key == key,
            a.mem_idx <= b.mem_idx,
            b.mem_idx < a.over@.mem.len() ==> stops(
                key,
                true,
                a.max_seq,
                a.over@.mem[b.mem_idx as int],
            ),
            forall|j: int|
                0 <= j < a.cursors@.len() ==> moved(
                    #[trigger] a.cursors@[j],
                    b.cursors@[j],
                    a.over@.content,
                    key,
                    a.max_seq,
                ),
        ensures
            b.left() < a.left(),
    {
        let c = a.over@.content;
        let x = a.streams(c);
        let y = b.streams(c);
        crate::bytes::lemma_lex_irreflexive(key);
        assert forall|j: int| 0 <= j < x.len() implies (#[trigger] y[j]).recs.len()
            <= x[j].recs.len() by {
            assert(moved(a.cursors@[j], b.cursors@[j], c, key, a.max_seq));
        }
        lemma_left_less(x, y);
        if w > 0 {
            let j = w - 1;
            let s = x[j];
            assert(moved(a.cursors@[j], b.cursors@[j], c, key, a.max_seq));
            let n = choose|n: int| #[trigger]
                first_stop(s.recs, key, true, a.max_seq, n) && y[j] == (StreamV {
                    recs: s.recs.skip(n),
                    fault: s.fault,
                });
            a.cursors@[j].lemma_head(c);
            assert(s.recs[0].key == key);
            assert(n > 0);
            assert(y[j].recs.len() < x[j].recs.len());
        }
    }

    /// Every source is parked past the key.
    proof fn lemma_moved_positioned(a: &Self, b: &Self, d: DimsV, key: Seq<u8>)
        requires
            a.wf(),
            b.wf(),
            a.positioned(d),
            beyond(a.floor@, a.strict@, key),
            *b == (Scan {
                raw: b.raw,
                work: b.work,
                mem_idx: b.mem_idx,
                cursors: b.cursors,
                floor: b.floor,
                strict: b.strict,
                ..*a
            }),
            b.floor@ == key,
            b.strict@,
            a.mem_idx <= b.mem_idx,
            b.mem_idx <= a.over@.mem.len() || b.mem_idx == a.mem_idx,
            forall|g: int|
                a.mem_idx <= g < b.mem_idx ==> !stops(
                    key,
                    true,
                    a.max_seq,
                    #[trigger] a.over@.mem[g],
                ),
            b.mem_idx < a.over@.mem.len() ==> stops(
                key,
                true,
                a.max_seq,
                a.over@.mem[b.mem_idx as int],
            ),
            forall|j: int|
                0 <= j < a.cursors@.len() ==> moved(
                    #[trigger] a.cursors@[j],
                    b.cursors@[j],
                    a.over@.content,
                    key,
                    a.max_seq,
                ),
        ensures
            b.positioned(d),
    {
        let v = a.over@;
        assert(first_stop(v.mem, key, true, a.max_seq, b.mem_idx as int)) by {
            assert forall|g: int| 0 <= g < b.mem_idx implies !stops(
                key,
                true,
                a.max_seq,
                #[trigger] v.mem[g],
            ) by {
                if g < a.mem_idx {
                    assert(!stops(a.floor@, a.strict@, a.max_seq, v.mem[g]));
                    lemma_beyond(a.floor@, a.strict@, key, v.mem[g].key);
                }
            }
        }
        assert forall|i: int| 0 <= i < b.tabs@.len() implies b.parked(
            d,
            #[trigger] b.tabs@[i],
            b.cursors@[i],
        ) by {
            let t = a.tabs@[i];
            let recs = tab_recs(v.content, t, d);
            assert(a.parked(d, t, a.cursors@[i]));
            let n0 = choose|n: int|
                {
                    &&& #[trigger] first_stop(recs, a.floor@, a.strict@, a.max_seq, n)
                    &&& a.cursors@[i].rest(v.content) == (StreamV {
                        recs: recs.skip(n),
                        fault: None,
                    })
                };
            assert(moved(a.cursors@[i], b.cursors@[i], v.content, key, a.max_seq));
            let s = a.cursors@[i].rest(v.content);
            let n = choose|n: int| #[trigger]
                first_stop(s.recs, key, true, a.max_seq, n) && b.cursors@[i].rest(v.content) == (
                StreamV { recs: s.recs.skip(n), fault: s.fault });
            lemma_stop_moves(recs, a.floor@, a.strict@, key, a.max_seq, n0, n);
            assert(recs.skip(n0).skip(n) =~= recs.skip(n0 + n));
            assert(first_stop(recs, b.floor@, b.strict@, b.max_seq, n0 + n));
        }
        assert forall|l: int, x: int| at(v.levels, l, x) implies b.tabs@.contains(
            #[trigger] v.levels[l][x],
        ) || forall|g: int|
            0 <= g < tab_recs(v.content, v.levels[l][x], d).len() ==> !b.ahead(
                (#[trigger] tab_recs(v.content, v.levels[l][x], d)[g]).key,
            ) by {
            if !a.tabs@.contains(v.levels[l][x]) {
                let recs = tab_recs(v.content, v.levels[l][x], d);
                assert forall|g: int| 0 <= g < recs.len() implies !b.ahead(
                    (#[trigger] recs[g]).key,
                ) by {
                    assert(!a.ahead(recs[g].key));
                    lemma_beyond(a.floor@, a.strict@, key, recs[g].key);
                }
            }
        }
    }

    /// What a sound database gives a scan: sorted sources, and one version
    /// per key and sequence.
    proof fn lemma_view<
        D: BlockDevice,
        const CAP: usize,
        const ARENA: usize,
        const BLOOM_BYTES: usize,
        const CACHE: usize,
    >(db: &Db<D, BLOCK, KEY_MAX, VAL_MAX, CAP, ARENA, LEVELS, TABLES, BLOOM_BYTES, CACHE>)
        requires
            db.wf(),
            db.sound(),
        ensures
            sources_sorted(Self::view_of(db), Self::dims_of(db)),
            db.versions_agree() ==> agree(Self::view_of(db), Self::dims_of(db)),
    {
        let v = Self::view_of(db);
        let d = Self::dims_of(db);
        db.lemma_wf();
        db.table.lemma_wf();
        assert forall|l: int, x: int| at(v.levels, l, x) implies key_sorted(
            tab_recs(v.content, #[trigger] v.levels[l][x], d),
        ) by {
            assert(tab_sound(v.content, v.levels[l][x], d));
            assert(is_run_of(tab_run(v.content, v.levels[l][x], d), v.content, v.levels[l][x], d));
        }
        if db.versions_agree() {
            assert forall|e: Rec, f: Rec|
                #![trigger holds(v, d, e), holds(v, d, f)]
                holds(v, d, e) && holds(v, d, f) && e.key == f.key && e.seq == f.seq implies e
                == f by {
                Self::lemma_held(db, e);
                Self::lemma_held(db, f);
            }
        }
    }

    /// What a scan holds is a version of the database.
    proof fn lemma_held<
        D: BlockDevice,
        const CAP: usize,
        const ARENA: usize,
        const BLOOM_BYTES: usize,
        const CACHE: usize,
    >(db: &Db<D, BLOCK, KEY_MAX, VAL_MAX, CAP, ARENA, LEVELS, TABLES, BLOOM_BYTES, CACHE>, e: Rec)
        ensures
            holds(Self::view_of(db), Self::dims_of(db), e) ==> db.has_version(e),
    {
        let v = Self::view_of(db);
        let d = Self::dims_of(db);
        if holds(v, d, e) && !db.mem_has(e) {
            let (l, x) = choose|l: int, x: int|
                at(v.levels, l, x) && tab_recs(v.content, #[trigger] v.levels[l][x], d).contains(e);
            assert(db.table_has(l, x, e));
        }
    }

    /// The keys passed between two states of a scan had no value.
    spec fn passed(a: &Self, b: &Self, d: DimsV) -> bool {
        &&& b.over == a.over
        &&& b.max_seq == a.max_seq
        &&& b.has_end == a.has_end
        &&& b.end == a.end
        &&& forall|k: Seq<u8>| #[trigger] b.ahead(k) ==> a.ahead(k)
        &&& forall|k: Seq<u8>| #[trigger]
            a.ahead(k) && !b.ahead(k) ==> shown(a.over@, d, a.max_seq, k) is None
    }

    /// The keys passed between two states of a scan that were held are
    /// `ks`, in order.
    #[verifier::opaque]
    spec fn trail(a: &Self, b: &Self, d: DimsV, ks: Seq<Seq<u8>>) -> bool {
        &&& ascending(ks)
        &&& forall|k: Seq<u8>| #[trigger]
            ks.contains(k) <==> a.ahead(k) && !b.ahead(k) && held(a.over@, d, a.max_seq, k)
        &&& forall|i: int, o: Seq<u8>|
            #![trigger ks[i], b.ahead(o)]
            0 <= i < ks.len() && b.ahead(o) ==> lex_lt(ks[i], o)
    }

    proof fn lemma_trail_same(a: &Self, b: &Self, n: &Self, d: DimsV, ks: Seq<Seq<u8>>)
        requires
            Self::trail(a, b, d, ks),
            n.floor == b.floor,
            n.strict == b.strict,
            n.has_end == b.has_end,
            n.end == b.end,
        ensures
            Self::trail(a, n, d, ks),
    {
        reveal(Scan::trail);
        assert forall|k: Seq<u8>| #[trigger] n.ahead(k) == b.ahead(k) by {}
        assert forall|k: Seq<u8>| #[trigger] ks.contains(k) <==> a.ahead(k) && !n.ahead(k) && held(
            a.over@,
            d,
            a.max_seq,
            k,
        ) by {
            assert(n.ahead(k) == b.ahead(k));
        }
    }

    /// A source is parked at an entry that the scan stops at.
    proof fn lemma_head_stops(&self, d: DimsV, src: int)
        requires
            self.wf(),
            self.positioned(d),
            0 <= src <= self.tabs@.len(),
        ensures
            self.head(self.over@.mem, src) matches Some(e) ==> stops(
                self.floor@,
                self.strict@,
                self.max_seq,
                e,
            ),
    {
        let v = self.over@;
        if src > 0 {
            let t = self.tabs@[src - 1];
            let cur = self.cursors@[src - 1];
            let recs = tab_recs(v.content, t, d);
            assert(self.parked(d, t, cur));
            let n = choose|n: int|
                {
                    &&& #[trigger] first_stop(recs, self.floor@, self.strict@, self.max_seq, n)
                    &&& cur.rest(v.content) == (StreamV { recs: recs.skip(n), fault: None })
                };
            cur.lemma_head(v.content);
            if n < recs.len() {
                assert(recs.skip(n)[0] == recs[n]);
            }
        }
    }

    /// The scratch buffer is no part of where a scan stands.
    proof fn lemma_same(&self, b: &Self, d: DimsV, w: int)
        requires
            *self == (Scan { raw: self.raw, work: self.work, ..*b }),
            b.wf(),
            b.leads(b.over@.mem, w),
        ensures
            self.wf(),
            b.positioned(d) ==> self.positioned(d),
            self.leads(self.over@.mem, w),
            self.head(self.over@.mem, w) == b.head(b.over@.mem, w),
            self.left() == b.left(),
            forall|k: Seq<u8>| #[trigger] self.ahead(k) == b.ahead(k),
            self.pending() == b.pending(),
    {
        assert(self.streams(self.over@.content) =~= b.streams(b.over@.content));
        assert forall|i: int|
            0 <= i < self.tabs@.len() && b.positioned(d) implies self.parked(
            d,
            #[trigger] self.tabs@[i],
            self.cursors@[i],
        ) by {
            assert(b.parked(d, b.tabs@[i], b.cursors@[i]));
            Self::lemma_parked_same(b, self, d, b.tabs@[i], b.cursors@[i]);
        }
        assert forall|src: int| 0 <= src <= self.tabs@.len() implies #[trigger] self.head(
            self.over@.mem,
            src,
        ) == b.head(b.over@.mem, src) by {}
    }

    /// With every head past the end of the range, nothing ahead is left.
    proof fn lemma_ended(&self, a: &Self, d: DimsV, ks: Seq<Seq<u8>>)
        requires
            self.wf(),
            self.positioned(d),
            sources_sorted(self.over@, d),
            agree(self.over@, d),
            numbered(self.over@, d),
            Self::passed(a, self, d),
            Self::trail(a, self, d, ks),
            forall|src: int|
                0 <= src <= self.tabs@.len() ==> (#[trigger] self.head(self.over@.mem, src) matches Some(
                    h,
                ) ==> self.has_end && lex_le(self.end@, h.key)),
        ensures
            self.drained(d),
            a.drained(d),
            a.hides_up_to(d, ks, None),
    {
        reveal(Scan::trail);
        assert forall|k: Seq<u8>| #[trigger] self.ahead(k) implies shown(
            self.over@,
            d,
            self.max_seq,
            k,
        ) is None && !held(self.over@, d, self.max_seq, k) by {
            assert forall|src: int| 0 <= src <= self.tabs@.len() implies (#[trigger] self.head(
                self.over@.mem,
                src,
            ) matches Some(h) ==> lex_lt(k, h.key)) by {
                if self.head(self.over@.mem, src) is Some {
                    crate::bytes::lemma_lex_lt_le(
                        k,
                        self.end@,
                        self.head(self.over@.mem, src)->0.key,
                    );
                }
            }
            self.lemma_gap(d, k);
        }
        assert forall|k: Seq<u8>| #[trigger] a.ahead(k) implies shown(
            a.over@,
            d,
            a.max_seq,
            k,
        ) is None by {
            if self.ahead(k) {
            }
        }
        assert forall|k: Seq<u8>| #[trigger] ks.contains(k) <==> a.ahead(k) && held(
            a.scanned(),
            d,
            a.limit(),
            k,
        ) && shown(a.scanned(), d, a.limit(), k) is None by {
            if self.ahead(k) {
            }
        }
    }

    /// With the lowest head past the end of the range, every head is.
    proof fn lemma_past_end(&self, w: int)
        requires
            self.leads(self.over@.mem, w),
            lex_le(self.end@, self.head(self.over@.mem, w)->0.key),
        ensures
            forall|src: int|
                0 <= src <= self.tabs@.len() ==> (#[trigger] self.head(self.over@.mem, src) matches Some(
                    h,
                ) ==> lex_le(self.end@, h.key)),
    {
        let m = self.head(self.over@.mem, w)->0.key;
        assert forall|src: int| 0 <= src <= self.tabs@.len() implies (#[trigger] self.head(
            self.over@.mem,
            src,
        ) matches Some(h) ==> lex_le(self.end@, h.key)) by {
            if self.head(self.over@.mem, src) is Some {
                crate::bytes::lemma_lex_le_le(
                    self.end@,
                    m,
                    self.head(self.over@.mem, src)->0.key,
                );
            }
        }
    }

    /// No key ahead of the lowest head is held, and none has a value.
    proof fn lemma_before_lead(&self, d: DimsV, w: int, k: Seq<u8>)
        requires
            self.wf(),
            self.positioned(d),
            sources_sorted(self.over@, d),
            agree(self.over@, d),
            numbered(self.over@, d),
            self.leads(self.over@.mem, w),
            self.ahead(k),
            lex_lt(k, self.head(self.over@.mem, w)->0.key),
        ensures
            shown(self.over@, d, self.max_seq, k) is None,
            !held(self.over@, d, self.max_seq, k),
    {
        let m = self.head(self.over@.mem, w)->0.key;
        assert forall|src: int| 0 <= src <= self.tabs@.len() implies (#[trigger] self.head(
            self.over@.mem,
            src,
        ) matches Some(h) ==> lex_lt(k, h.key)) by {
            if self.head(self.over@.mem, src) is Some {
                crate::bytes::lemma_lex_lt_le(k, m, self.head(self.over@.mem, src)->0.key);
            }
        }
        self.lemma_gap(d, k);
    }

    /// The lowest head key is the first held one, and next where it has a
    /// value.
    proof fn lemma_is_next(&self, a: &Self, d: DimsV, w: int, ks: Seq<Seq<u8>>)
        requires
            self.wf(),
            self.positioned(d),
            sources_sorted(self.over@, d),
            agree(self.over@, d),
            numbered(self.over@, d),
            Self::passed(a, self, d),
            Self::trail(a, self, d, ks),
            self.leads(self.over@.mem, w),
            self.ahead(self.head(self.over@.mem, w)->0.key),
            held(self.over@, d, self.max_seq, self.head(self.over@.mem, w)->0.key),
        ensures
            ({
                let m = self.head(self.over@.mem, w)->0.key;
                &&& self.is_first(d, m)
                &&& a.reaches(d, m)
                &&& Self::keeps_shown(a, self, d)
                &&& a.hides_up_to(d, ks, Some(m))
                &&& shown(self.over@, d, self.max_seq, m) is Some ==> self.is_next(d, m)
                    && a.is_next(d, m)
            }),
    {
        reveal(Scan::trail);
        let m = self.head(self.over@.mem, w)->0.key;
        assert forall|o: Seq<u8>| #[trigger]
            self.ahead(o) && held(self.over@, d, self.max_seq, o) implies lex_le(m, o) by {
            if lex_lt(o, m) {
                self.lemma_before_lead(d, w, o);
            }
        }
        assert forall|o: Seq<u8>| #[trigger]
            self.ahead(o) && shown(self.over@, d, self.max_seq, o) is Some implies lex_le(m, o) by {
            if lex_lt(o, m) {
                self.lemma_before_lead(d, w, o);
            }
        }
        assert forall|o: Seq<u8>| #[trigger]
            a.ahead(o) && shown(a.over@, d, a.max_seq, o) is Some implies lex_le(m, o) by {
            assert(self.ahead(o));
        }
        assert(a.ahead(m));
        assert forall|k: Seq<u8>| #[trigger] ks.contains(k) <==> a.ahead(k) && held(
            a.scanned(),
            d,
            a.limit(),
            k,
        ) && shown(a.scanned(), d, a.limit(), k) is None && lex_lt(k, m) by {
            if ks.contains(k) {
                let i = choose|i: int| 0 <= i < ks.len() && ks[i] == k;
                assert(lex_lt(ks[i], m));
            } else if self.ahead(k) && lex_lt(k, m) {
                self.lemma_before_lead(d, w, k);
            }
        }
    }

    /// Passing the lowest head key, which had no value, passes nothing that
    /// had one, and no other held key.
    proof fn lemma_skipped(a: &Self, b: &Self, n: &Self, d: DimsV, w: int, ks: Seq<Seq<u8>>)
        requires
            b.wf(),
            b.positioned(d),
            sources_sorted(b.over@, d),
            agree(b.over@, d),
            numbered(b.over@, d),
            Self::passed(a, b, d),
            Self::trail(a, b, d, ks),
            b.leads(b.over@.mem, w),
            b.ahead(b.head(b.over@.mem, w)->0.key),
            held(b.over@, d, b.max_seq, b.head(b.over@.mem, w)->0.key),
            shown(b.over@, d, b.max_seq, b.head(b.over@.mem, w)->0.key) is None,
            n.over == b.over,
            n.max_seq == b.max_seq,
            n.has_end == b.has_end,
            n.end == b.end,
            n.floor@ == b.head(b.over@.mem, w)->0.key,
            n.strict@,
        ensures
            Self::passed(a, n, d),
            Self::trail(a, n, d, ks.push(b.head(b.over@.mem, w)->0.key)),
    {
        reveal(Scan::trail);
        let m = b.head(b.over@.mem, w)->0.key;
        assert forall|k: Seq<u8>| #[trigger] n.ahead(k) implies a.ahead(k) && b.ahead(k) && lex_lt(
            m,
            k,
        ) by {
            lemma_beyond(b.floor@, b.strict@, m, k);
            assert(b.ahead(k));
        }
        assert forall|k: Seq<u8>| #[trigger] a.ahead(k) && !n.ahead(k) implies shown(
            a.over@,
            d,
            a.max_seq,
            k,
        ) is None by {
            if b.ahead(k) {
                crate::bytes::lemma_lex_total(k, m);
                if lex_lt(k, m) {
                    b.lemma_before_lead(d, w, k);
                }
            }
        }
        let ns = ks.push(m);
        assert forall|i: int| 0 <= i < ks.len() implies lex_lt(#[trigger] ks[i], m) by {
            assert(b.ahead(m));
        }
        assert(ascending(ns)) by {
            assert forall|i: int, j: int|
                #![trigger ns[i], ns[j]]
                0 <= i < j < ns.len() implies lex_lt(ns[i], ns[j]) by {
                assert(ns[i] == ks[i]);
                if j < ks.len() {
                    assert(ns[j] == ks[j]);
                }
            }
        }
        assert forall|k: Seq<u8>| #[trigger] ns.contains(k) <==> a.ahead(k) && !n.ahead(k) && held(
            a.over@,
            d,
            a.max_seq,
            k,
        ) by {
            assert(ns[ks.len() as int] == m);
            if ks.contains(k) {
                let i = choose|i: int| 0 <= i < ks.len() && ks[i] == k;
                assert(ns[i] == k);
            }
            if ns.contains(k) && k != m {
                let i = choose|i: int| 0 <= i < ns.len() && ns[i] == k;
                assert(ks[i] == k);
                assert(ks.contains(k));
            }
            if k == m {
                crate::bytes::lemma_lex_irreflexive(m);
            } else if b.ahead(k) && !n.ahead(k) {
                crate::bytes::lemma_lex_total(k, m);
                if lex_lt(k, m) {
                    b.lemma_before_lead(d, w, k);
                }
            }
        }
        assert forall|i: int, o: Seq<u8>|
            #![trigger ns[i], n.ahead(o)]
            0 <= i < ns.len() && n.ahead(o) implies lex_lt(ns[i], o) by {
            if i < ks.len() {
                assert(ns[i] == ks[i]);
                assert(b.ahead(o));
            }
        }
    }

    /// After a key was yielded, what was ahead past it is ahead.
    proof fn lemma_yielded(a: &Self, b: &Self, n: &Self, d: DimsV, m: Seq<u8>)
        requires
            Self::passed(a, b, d),
            b.ahead(m),
            n.has_end == b.has_end,
            n.end == b.end,
            n.floor@ == m,
            n.strict@,
        ensures
            forall|o: Seq<u8>| #[trigger] n.ahead(o) == (a.ahead(o) && lex_lt(m, o)),
    {
        assert forall|o: Seq<u8>| #[trigger] n.ahead(o) == (a.ahead(o) && lex_lt(m, o)) by {
            lemma_beyond(b.floor@, b.strict@, m, o);
            if n.ahead(o) {
                assert(b.ahead(o));
            }
        }
    }

    /// `k` is the first held key ahead.
    pub open spec fn is_first(&self, d: DimsV, k: Seq<u8>) -> bool {
        &&& self.ahead(k)
        &&& held(self.scanned(), d, self.limit(), k)
        &&& forall|o: Seq<u8>| #[trigger]
            self.ahead(o) && held(self.scanned(), d, self.limit(), o) ==> lex_le(k, o)
    }

    /// `k` is a held key ahead, with no key before it that has a value.
    pub open spec fn reaches(&self, d: DimsV, k: Seq<u8>) -> bool {
        &&& self.ahead(k)
        &&& held(self.scanned(), d, self.limit(), k)
        &&& forall|o: Seq<u8>| #[trigger]
            self.ahead(o) && shown(self.scanned(), d, self.limit(), o) is Some ==> lex_le(k, o)
    }

    /// `ks` are the keys ahead, below `until`, that are held and have no
    /// value, in order.
    pub open spec fn hides_up_to(
        &self,
        d: DimsV,
        ks: Seq<Seq<u8>>,
        until: Option<Seq<u8>>,
    ) -> bool {
        &&& ascending(ks)
        &&& forall|k: Seq<u8>| #[trigger]
            ks.contains(k) <==> {
                &&& self.ahead(k)
                &&& held(self.scanned(), d, self.limit(), k)
                &&& shown(self.scanned(), d, self.limit(), k) is None
                &&& until matches Some(m) ==> lex_lt(k, m)
            }
    }

    /// The same keys with a value are ahead of both.
    pub open spec fn keeps_shown(a: &Self, b: &Self, d: DimsV) -> bool {
        forall|o: Seq<u8>|
            #![trigger a.ahead(o)]
            #![trigger b.ahead(o)]
            shown(a.scanned(), d, a.limit(), o) is Some ==> a.ahead(o) == b.ahead(o)
    }

    /// A buffer too short for the key `k` or its value: the keys before it
    /// were passed and written, and the scan stays at it.
    pub open spec fn short_at(
        a: &Self,
        b: &Self,
        d: DimsV,
        k: Seq<u8>,
        ks: Seq<Seq<u8>>,
        need: usize,
        k0: Seq<u8>,
        k1: Seq<u8>,
        room: nat,
    ) -> bool {
        &&& a.reaches(d, k)
        &&& b.is_first(d, k)
        &&& Self::keeps_shown(a, b, d)
        &&& a.hides_up_to(d, ks, Some(k))
        &&& all_fit(ks, k0.len())
        &&& if k.len() > k0.len() {
            need == k.len() && k1 == written(k0, ks)
        } else {
            &&& a.is_next(d, k)
            &&& b.is_next(d, k)
            &&& need == (shown(a.scanned(), d, a.limit(), k)->0).len()
            &&& need > room
            &&& k1 == written(k0, ks.push(k))
        }
    }

    /// A buffer too short for the key that the scan reaches, or its value.
    pub open spec fn fell_short(
        a: &Self,
        b: &Self,
        d: DimsV,
        need: usize,
        k0: Seq<u8>,
        k1: Seq<u8>,
        room: nat,
    ) -> bool {
        exists|k: Seq<u8>, ks: Seq<Seq<u8>>| #[trigger]
            Self::short_at(a, b, d, k, ks, need, k0, k1, room)
    }

    /// One step of a scan from `a` to `b`, with the buffers before and after.
    /// The keys that are passed because they have no value are written to
    /// the key buffer one by one. The next entry goes to the front of the
    /// buffers and the scan moves past its key; a buffer that is too short
    /// leaves the entry the next one; at the end of the range nothing is
    /// ahead.
    pub open spec fn stepped<E>(
        a: &Self,
        b: &Self,
        d: DimsV,
        r: Result<Option<(usize, usize)>, Error<E>>,
        k0: Seq<u8>,
        k1: Seq<u8>,
        v0: Seq<u8>,
        v1: Seq<u8>,
    ) -> bool {
        match r {
            Ok(Some((kn, vn))) => {
                let k = k1.take(kn as int);
                let v = v1.take(vn as int);
                &&& kn <= k0.len()
                &&& vn <= v0.len()
                &&& exists|ks: Seq<Seq<u8>>| #[trigger]
                    a.hides_up_to(d, ks, Some(k)) && all_fit(ks, k0.len()) && k1 == written(
                        k0,
                        ks.push(k),
                    )
                &&& v1 == spliced(v0, 0, v)
                &&& a.is_next(d, k)
                &&& shown(a.scanned(), d, a.limit(), k) == Some(v)
                &&& b.positioned(d)
                &&& forall|o: Seq<u8>| #[trigger] b.ahead(o) == (a.ahead(o) && lex_lt(k, o))
            },
            Ok(None) => {
                &&& exists|ks: Seq<Seq<u8>>| #[trigger]
                    a.hides_up_to(d, ks, None) && all_fit(ks, k0.len()) && k1 == written(k0, ks)
                &&& v1 == v0
                &&& a.drained(d)
                &&& b.drained(d)
                &&& b.positioned(d)
            },
            Err(Error::BufferTooSmall { need }) => {
                &&& v1 == v0
                &&& b.positioned(d)
                &&& Self::fell_short(a, b, d, need, k0, k1, v0.len())
            },
            Err(e) => e is Device,
        }
    }

    proof fn lemma_short<E>(
        a: &Self,
        b: &Self,
        d: DimsV,
        k: Seq<u8>,
        ks: Seq<Seq<u8>>,
        need: usize,
        bufs: (Seq<u8>, Seq<u8>, Seq<u8>),
    )
        requires
            b.positioned(d),
            Self::short_at(a, b, d, k, ks, need, bufs.0, bufs.1, bufs.2.len()),
        ensures
            Self::stepped::<E>(
                a,
                b,
                d,
                Err(Error::BufferTooSmall { need }),
                bufs.0,
                bufs.1,
                bufs.2,
                bufs.2,
            ),
    {
        assert(Self::fell_short(a, b, d, need, bufs.0, bufs.1, bufs.2.len()));
    }

    proof fn lemma_drained<E>(
        a: &Self,
        b: &Self,
        d: DimsV,
        ks: Seq<Seq<u8>>,
        bufs: (Seq<u8>, Seq<u8>, Seq<u8>),
    )
        requires
            a.drained(d),
            b.drained(d),
            b.positioned(d),
            a.hides_up_to(d, ks, None),
            all_fit(ks, bufs.0.len()),
            bufs.1 == written(bufs.0, ks),
        ensures
            Self::stepped::<E>(a, b, d, Ok(None), bufs.0, bufs.1, bufs.2, bufs.2),
    {
    }

    /// No cursor is parked inside the range, and none stopped at damage.
    pub open spec fn at_end(&self) -> bool {
        forall|i: int|
            0 <= i < self.pending().len() ==> {
                let s = #[trigger] self.pending()[i];
                if s.recs.len() == 0 {
                    s.fault is None
                } else {
                    !self.within_end(s.recs[0].key)
                }
            }
    }

    /// The key lies below the end of the range.
    pub closed spec fn within_end(&self, k: Seq<u8>) -> bool {
        self.has_end ==> lex_lt(k, self.end@)
    }

    /// The memtable or a table cursor holds the record.
    pub open spec fn source_holds(&self, e: Rec) -> bool {
        ||| self.scanned().mem.contains(e)
        ||| exists|i: int|
            0 <= i < self.pending().len() && #[trigger] self.pending()[i].recs.contains(e)
    }

    /// A record of a source has this key and value and is in view.
    pub open spec fn from_source(&self, k: Seq<u8>, v: Seq<u8>) -> bool {
        exists|e: Rec| #[trigger]
            self.source_holds(e) && e.key == k && e.val == v && !e.tombstone
    }

    /// One step of a scan, whatever the blocks hold: every cursor reads on,
    /// damage is never passed over in silence, and what is yielded is stored.
    pub open spec fn stepped_on<E>(
        a: &Self,
        b: &Self,
        r: Result<Option<(usize, usize)>, Error<E>>,
        k1: Seq<u8>,
        v1: Seq<u8>,
    ) -> bool {
        match r {
            Ok(Some((kn, vn))) => {
                &&& all_later(a.pending(), b.pending())
                &&& kn <= k1.len()
                &&& vn <= v1.len()
                &&& a.within_end(k1.take(kn as int))
                &&& a.from_source(k1.take(kn as int), v1.take(vn as int))
            },
            Ok(None) => all_later(a.pending(), b.pending()) && b.at_end(),
            Err(Error::BufferTooSmall { need }) => all_later(a.pending(), b.pending()),
            Err(e) => {
                ||| e is Device
                ||| e is CorruptManifest
                ||| e is CorruptBlock
                ||| one_fails(a.pending(), e, KEY_MAX, VAL_MAX)
            },
        }
    }

    /// A head's key fits a bound.
    proof fn lemma_head_fits<
        D: BlockDevice,
        const CAP: usize,
        const ARENA: usize,
        const BLOOM_BYTES: usize,
        const CACHE: usize,
    >(
        &self,
        db: &Db<D, BLOCK, KEY_MAX, VAL_MAX, CAP, ARENA, LEVELS, TABLES, BLOOM_BYTES, CACHE>,
        src: int,
    )
        requires
            self.wf(),
            db.wf(),
            0 <= src <= self.tabs@.len(),
        ensures
            self.head(db.mem(), src) matches Some(e) ==> e.key.len() <= KEY_MAX && e.key.len()
                <= 0xFFFF,
    {
        db.lemma_wf();
        db.lemma_mem_ok();
        if src > 0 {
            self.cursors@[src - 1].lemma_head(db.content());
        }
    }

    /// A head is a record of the source that it was reached from.
    proof fn lemma_head_source(a: &Self, b: &Self, src: int)
        requires
            b.wf(),
            a.over == b.over,
            all_later(a.pending(), b.pending()),
            0 <= src <= b.tabs@.len(),
            b.head(b.over@.mem, src) is Some,
        ensures
            a.source_holds(b.head(b.over@.mem, src)->0),
    {
        let e = b.head(b.over@.mem, src)->0;
        if src == 0 {
            assert(a.scanned().mem[b.mem_idx as int] == e);
        } else {
            let i = src - 1;
            let c = b.over@.content;
            b.cursors@[i].lemma_head(c);
            assert(b.pending()[i] == b.cursors@[i].rest(c));
            assert(later(a.pending()[i], b.pending()[i]));
            let s = a.pending()[i];
            let n = choose|n: int|
                0 <= n <= s.recs.len() && b.pending()[i] == (StreamV {
                    recs: #[trigger] s.recs.skip(n),
                    fault: s.fault,
                });
            assert(s.recs.skip(n)[0] == s.recs[n]);
            assert(s.recs.contains(e));
        }
    }

    /// With every head past the end, no cursor is parked inside the range.
    proof fn lemma_at_end(&self)
        requires
            self.wf(),
            forall|src: int|
                0 <= src <= self.tabs@.len() ==> (#[trigger] self.head(self.over@.mem, src) matches Some(
                    h,
                ) ==> self.has_end && !lex_lt(h.key, self.end@)),
        ensures
            self.at_end(),
    {
        assert forall|i: int| 0 <= i < self.pending().len() implies ({
            let s = #[trigger] self.pending()[i];
            if s.recs.len() == 0 {
                s.fault is None
            } else {
                !self.within_end(s.recs[0].key)
            }
        }) by {
            self.cursors@[i].lemma_head(self.over@.content);
            assert(self.head(self.over@.mem, i + 1) is Some <==> self.cursors@[i].is_live());
        }
    }

    /// Yields the next entry: copies the key into `key_buf` and the value
    /// into `val_buf`, returning their lengths. Returns `Ok(None)` at the
    /// end of the range. Deleted keys are skipped silently, though each is
    /// copied into `key_buf` as it is passed, and has to fit.
    ///
    /// [`Error::BufferTooSmall`] fires *before* any cursor advances past
    /// the entry, so a retry with a larger buffer yields the same entry.
    ///
    /// The database is the one the scan was positioned over, not written
    /// since. A scan that was never positioned yields nothing.
    ///
    /// # Errors
    ///
    /// [`Error::NotOpen`] before [`open`](Db::open),
    /// [`Error::BufferTooSmall`] with the required length, [`Error::CorruptBlock`]
    /// on a torn data block, or [`Error::Device`] on I/O failure.
    #[verifier::rlimit(60)]
    pub fn next<
        D: BlockDevice,
        const CAP: usize,
        const ARENA: usize,
        const BLOOM_BYTES: usize,
        const CACHE: usize,
    >(
        &mut self,
        db: &mut Db<D, BLOCK, KEY_MAX, VAL_MAX, CAP, ARENA, LEVELS, TABLES, BLOOM_BYTES, CACHE>,
        key_buf: &mut [u8],
        val_buf: &mut [u8],
    ) -> (r: Result<Option<(usize, usize)>, Error<D::Error>>)
        requires
            old(self).wf(),
            old(db).wf(),
            old(self).is_sought() ==> old(self).scanned() == Self::view_of(old(db)),
        ensures
            final(self).wf(),
            final(db).wf(),
            final(db).same_state(old(db)),
            final(self).is_sought() == old(self).is_sought(),
            old(db).is_opened() && !old(self).is_sought() ==> {
                &&& r == Ok::<Option<(usize, usize)>, Error<D::Error>>(None)
                &&& *final(self) == *old(self)
                &&& final(key_buf)@ == old(key_buf)@
                &&& final(val_buf)@ == old(val_buf)@
            },
            old(db).is_opened() && old(self).is_sought() ==> Self::stepped_on(
                old(self),
                final(self),
                r,
                final(key_buf)@,
                final(val_buf)@,
            ),
            final(self).scanned() == old(self).scanned(),
            final(self).limit() == old(self).limit(),
            final(key_buf)@.len() == old(key_buf)@.len(),
            final(val_buf)@.len() == old(val_buf)@.len(),
            !old(db).is_opened() <==> r == Err::<Option<(usize, usize)>, Error<D::Error>>(
                Error::NotOpen,
            ),
            r matches Err(e) ==> Self::scan_error(e) || e is BufferTooSmall || e is NotOpen,
            old(db).is_opened() && old(db).sound() ==> {
                &&& final(db).sound()
                &&& old(self).positioned(Self::dims_of(old(db))) && (old(db).traced() || (
                old(db).versions_agree() && numbered(
                    Self::view_of(old(db)),
                    Self::dims_of(old(db)),
                ))) ==> Self::stepped(
                    old(self),
                    final(self),
                    Self::dims_of(old(db)),
                    r,
                    old(key_buf)@,
                    final(key_buf)@,
                    old(val_buf)@,
                    final(val_buf)@,
                )
            },
    {
        match db.ensure_open() {
            Ok(()) => {},
            Err(e) => {
                return Err(e);
            },
        }
        if !self.sought {
            return Ok(None);
        }
        let ghost a = *self;
        let ghost db0 = *db;
        let ghost d = Self::dims_of(db);
        let ghost v = Self::view_of(db);
        let ghost good = db.sound() && self.positioned(d) && db.versions_agree() && numbered(v, d);
        let ghost mut ks: Seq<Seq<u8>> = Seq::empty();
        proof {
            if db.sound() {
                Self::lemma_view(db);
            }
            if db.traced() {
                db.law_traced_agrees();
                assert(db.whole() == v);
            }
            lemma_later_self(self.pending());
            assert(written(key_buf@, ks) == key_buf@);
            assert(Self::trail(&a, self, d, ks)) by {
                reveal(Scan::trail);
            }
        }
        loop
            invariant
                a == *old(self),
                a.sought,
                self.sought,
                self.end == a.end,
                self.has_end == a.has_end,
                all_later(a.pending(), self.pending()),
                db0 == *old(db),
                a.wf(),
                self.wf(),
                db0.wf(),
                db.wf(),
                db.same_state(&db0),
                db0.is_opened(),
                db0.sound() ==> db.sound(),
                db0.traced() ==> db0.versions_agree() && numbered(v, d),
                v == Self::view_of(&db0),
                d == Self::dims_of(&db0),
                v == self.over@,
                v == a.over@,
                self.max_seq == a.max_seq,
                key_buf@ == written(old(key_buf)@, ks),
                all_fit(ks, old(key_buf)@.len()),
                val_buf@ == old(val_buf)@,
                good == (db0.sound() && a.positioned(d) && db0.versions_agree() && numbered(v, d)),
                good ==> {
                    &&& sources_sorted(v, d)
                    &&& agree(v, d)
                    &&& self.positioned(d)
                    &&& Self::passed(&a, self, d)
                    &&& Self::trail(&a, self, d, ks)
                },
            decreases self.left(),
        {
            proof {
                lemma_written_len(old(key_buf)@, ks);
            }
            let w: usize = match self.min_src(&*db) {
                Some(w) => w,
                None => {
                    proof {
                        self.lemma_at_end();
                        if good {
                            self.lemma_ended(&a, d, ks);
                            Self::lemma_drained::<D::Error>(
                                &a,
                                self,
                                d,
                                ks,
                                (old(key_buf)@, key_buf@, val_buf@),
                            );
                        }
                    }
                    return Ok(None);
                },
            };
            proof {
                self.lemma_head_fits(&*db, w as int);
            }
            let (key, seq, tombstone): (KeyBound<KEY_MAX>, u64, bool) = match self.head_view(
                &*db,
                w,
            ) {
                Some(h) => match KeyBound::from_slice(h.key) {
                    Some(k) => (k, h.seq, h.tombstone),
                    None => {
                        return Ok(None);
                    },
                },
                None => {
                    return Ok(None);
                },
            };
            let ghost e = self.head(v.mem, w as int)->0;
            // The end bound is exclusive: a head at/above it ends the scan.
            if self.has_end && !bytes_lt(key.as_slice(), self.end.as_slice()) {
                proof {
                    self.lemma_past_end(w as int);
                    self.lemma_at_end();
                    if good {
                        self.lemma_ended(&a, d, ks);
                        Self::lemma_drained::<D::Error>(
                            &a,
                            self,
                            d,
                            ks,
                            (old(key_buf)@, key_buf@, val_buf@),
                        );
                    }
                }
                return Ok(None);
            }
            proof {
                if good {
                    self.lemma_head_stops(d, w as int);
                    assert(self.ahead(e.key));
                    self.lemma_lead(d, w as int);
                }
            }
            proof {
                Self::lemma_head_source(&a, self, w as int);
            }
            // The key check and copy happen before any cursor advances, so
            // BufferTooSmall never consumes an entry.
            let key_len: usize = key.as_slice().len();
            proof {
                if good {
                    self.lemma_is_next(&a, d, w as int, ks);
                }
            }
            if key_len > key_buf.len() {
                proof {
                    if good {
                        Self::lemma_short::<D::Error>(
                            &a,
                            self,
                            d,
                            e.key,
                            ks,
                            key_len,
                            (old(key_buf)@, key_buf@, val_buf@),
                        );
                    }
                }
                return Err(Error::BufferTooSmall { need: key_len });
            }
            copy_into(key_buf, 0, key.as_slice());
            let ghost front = ks;
            proof {
                ks = ks.push(e.key);
                assert(ks.drop_last() =~= front);
                lemma_written_len(old(key_buf)@, ks);
                lemma_written_last(old(key_buf)@, ks);
            }
            let ghost b = *self;
            let mut skip: bool = tombstone;
            if !skip {
                match db.rdel_hides(key.as_slice(), self.max_seq, seq, &mut self.raw) {
                    Ok(x) => {
                        skip = x;
                    },
                    Err(e) => {
                        return Err(e);
                    },
                }
            }
            proof {
                self.lemma_same(&b, d, w as int);
                if good {
                    assert(skip <==> shown(v, d, self.max_seq, e.key) is None);
                    Self::lemma_trail_same(&a, &b, self, d, front);
                    self.lemma_is_next(&a, d, w as int, front);
                }
            }
            let ghost b = *self;
            if !skip {
                let val_len: usize = match self.head_view(&*db, w) {
                    Some(h) => {
                        if h.val.len() > val_buf.len() {
                            let need: usize = h.val.len();
                            proof {
                                if good {
                                    Self::lemma_short::<D::Error>(
                                        &a,
                                        self,
                                        d,
                                        e.key,
                                        front,
                                        need,
                                        (old(key_buf)@, key_buf@, val_buf@),
                                    );
                                }
                            }
                            return Err(Error::BufferTooSmall { need });
                        }
                        copy_into(val_buf, 0, h.val);
                        h.val.len()
                    },
                    None => {
                        return Ok(None);
                    },
                };
                match self.advance_past_key(&*db, key.as_slice(), Ghost(d), Ghost(w as int)) {
                    Ok(()) => {},
                    Err(e) => {
                        proof {
                            lemma_fault_later(a.pending(), b.pending(), e, KEY_MAX, VAL_MAX);
                        }
                        return Err(e);
                    },
                }
                proof {
                    lemma_later(a.pending(), b.pending(), self.pending());
                    crate::bytes::lemma_splice_read(
                        old(val_buf)@,
                        0,
                        e.val,
                        0,
                        e.val.len() as int,
                    );
                    assert(val_buf@.take(e.val.len() as int) =~= e.val);
                    assert(a.source_holds(e) && e.key == key@);
                    if good {
                        Self::lemma_yielded(&a, &b, self, d, key@);
                        assert(a.hides_up_to(d, front, Some(key@)));
                    }
                }
                return Ok(Some((key_len, val_len)));
            }
            match self.advance_past_key(&*db, key.as_slice(), Ghost(d), Ghost(w as int)) {
                Ok(()) => {},
                Err(e) => {
                    proof {
                        lemma_fault_later(a.pending(), b.pending(), e, KEY_MAX, VAL_MAX);
                    }
                    return Err(e);
                },
            }
            proof {
                lemma_later(a.pending(), b.pending(), self.pending());
                if good {
                    Self::lemma_skipped(&a, &b, self, d, w as int, front);
                }
            }
        }
    }

    /// A range is accepted when its start fits a key and its end, where
    /// there is one, is a key: not empty, and not too long.
    pub proof fn law_range_accepted<E>(start: Seq<u8>, end: Option<Seq<u8>>)
        ensures
            Self::range_check::<E>(start, end) is Ok <==> start.len() <= KEY_MAX && (end matches Some(
                e,
            ) ==> 1 <= e.len() <= KEY_MAX),
            start.len() <= KEY_MAX && end == Some(Seq::<u8>::empty()) ==> Self::range_check::<E>(
                start,
                end,
            ) == Err::<(), Error<E>>(Error::EmptyKey),
    {
    }

    /// A step of a scan is owed an answer: it yields the least key ahead
    /// with a value, and that value, where the buffers take both, is over
    /// only where no key ahead has one, and asks for a longer buffer only
    /// where one is too short. Only the device can fail it.
    pub proof fn law_scan_answers<E>(
        a: &Self,
        b: &Self,
        d: DimsV,
        r: Result<Option<(usize, usize)>, Error<E>>,
        k0: Seq<u8>,
        k1: Seq<u8>,
        v0: Seq<u8>,
        v1: Seq<u8>,
        k: Seq<u8>,
    )
        requires
            Self::stepped::<E>(a, b, d, r, k0, k1, v0, v1),
            a.ahead(k),
            shown(a.scanned(), d, a.limit(), k) is Some,
        ensures
            match r {
                Ok(Some((kn, vn))) => {
                    let n = k1.take(kn as int);
                    &&& lex_le(n, k)
                    &&& a.ahead(n)
                    &&& shown(a.scanned(), d, a.limit(), n) == Some(v1.take(vn as int))
                    &&& !b.ahead(n)
                    &&& k != n ==> b.ahead(k)
                },
                Ok(None) => false,
                Err(Error::BufferTooSmall { need }) => (need > k0.len() || need > v0.len())
                    && b.ahead(k) && v1 == v0,
                Err(e) => e is Device,
            },
    {
        match r {
            Ok(Some((kn, vn))) => {
                crate::bytes::lemma_lex_irreflexive(k1.take(kn as int));
                crate::bytes::lemma_lex_total(k, k1.take(kn as int));
            },
            Err(Error::BufferTooSmall { need }) => {
                let (n, ks) = choose|n: Seq<u8>, ks: Seq<Seq<u8>>| #[trigger]
                    Self::short_at(a, b, d, n, ks, need, k0, k1, v0.len());
                assert(Self::keeps_shown(a, b, d));
                assert(b.ahead(k) == a.ahead(k));
            },
            _ => {},
        }
    }

    /// A scan yields keys in strictly ascending order.
    pub proof fn law_scan_ascends<E>(
        a: &Self,
        b: &Self,
        c: &Self,
        d: DimsV,
        first: (usize, usize),
        second: (usize, usize),
        keys: (Seq<u8>, Seq<u8>, Seq<u8>),
        vals: (Seq<u8>, Seq<u8>, Seq<u8>),
    )
        requires
            Self::stepped::<E>(a, b, d, Ok(Some(first)), keys.0, keys.1, vals.0, vals.1),
            Self::stepped::<E>(b, c, d, Ok(Some(second)), keys.1, keys.2, vals.1, vals.2),
        ensures
            lex_lt(keys.1.take(first.0 as int), keys.2.take(second.0 as int)),
    {
        assert(b.ahead(keys.2.take(second.0 as int)));
    }

    /// A retry after a buffer was too short yields the entry that was next
    /// before.
    pub proof fn law_scan_retries<E>(
        a: &Self,
        b: &Self,
        c: &Self,
        d: DimsV,
        need: usize,
        lens: (usize, usize),
        tried: (Seq<u8>, Seq<u8>, Seq<u8>),
        keys: (Seq<u8>, Seq<u8>),
        vals: (Seq<u8>, Seq<u8>),
    )
        requires
            b.scanned() == a.scanned(),
            b.limit() == a.limit(),
            Self::stepped::<E>(
                a,
                b,
                d,
                Err(Error::BufferTooSmall { need }),
                tried.0,
                tried.1,
                tried.2,
                tried.2,
            ),
            Self::stepped::<E>(b, c, d, Ok(Some(lens)), keys.0, keys.1, vals.0, vals.1),
        ensures
            a.is_next(d, keys.1.take(lens.0 as int)),
            shown(a.scanned(), d, a.limit(), keys.1.take(lens.0 as int)) == Some(
                vals.1.take(lens.1 as int),
            ),
    {
        let (k, ks) = choose|k: Seq<u8>, ks: Seq<Seq<u8>>| #[trigger]
            Self::short_at(a, b, d, k, ks, need, tried.0, tried.1, tried.2.len());
        assert(Self::keeps_shown(a, b, d));
        let n = keys.1.take(lens.0 as int);
        assert(b.ahead(n));
        assert forall|o: Seq<u8>| #[trigger]
            a.ahead(o) && shown(a.scanned(), d, a.limit(), o) is Some implies lex_le(n, o) by {
            assert(b.ahead(o));
        }
    }

    /// A scan passes over no key that has a value: each is yielded, or
    /// still ahead.
    pub proof fn law_scan_misses_none<E>(
        a: &Self,
        b: &Self,
        d: DimsV,
        lens: (usize, usize),
        keys: (Seq<u8>, Seq<u8>),
        vals: (Seq<u8>, Seq<u8>),
        k: Seq<u8>,
    )
        requires
            Self::stepped::<E>(a, b, d, Ok(Some(lens)), keys.0, keys.1, vals.0, vals.1),
            a.ahead(k),
            shown(a.scanned(), d, a.limit(), k) is Some,
        ensures
            k == keys.1.take(lens.0 as int) || b.ahead(k),
    {
        crate::bytes::lemma_lex_total(k, keys.1.take(lens.0 as int));
    }
}

/// A buffer after the keys went to its front, one over the other.
pub open spec fn written(buf: Seq<u8>, ks: Seq<Seq<u8>>) -> Seq<u8>
    decreases ks.len(),
{
    if ks.len() == 0 {
        buf
    } else {
        spliced(written(buf, ks.drop_last()), 0, ks.last())
    }
}

/// The keys stand in strictly ascending order.
pub open spec fn ascending(ks: Seq<Seq<u8>>) -> bool {
    forall|i: int, j: int|
        #![trigger ks[i], ks[j]]
        0 <= i < j < ks.len() ==> lex_lt(ks[i], ks[j])
}

/// No key is longer than `n`.
pub open spec fn all_fit(ks: Seq<Seq<u8>>, n: nat) -> bool {
    forall|i: int| 0 <= i < ks.len() ==> (#[trigger] ks[i]).len() <= n
}

proof fn lemma_written_len(buf: Seq<u8>, ks: Seq<Seq<u8>>)
    requires
        all_fit(ks, buf.len()),
    ensures
        written(buf, ks).len() == buf.len(),
    decreases ks.len(),
{
    if ks.len() > 0 {
        let front = ks.drop_last();
        assert forall|i: int| 0 <= i < front.len() implies (#[trigger] front[i]).len()
            <= buf.len() by {
            assert(front[i] == ks[i]);
        }
        lemma_written_len(buf, front);
        assert(ks[ks.len() - 1].len() <= buf.len());
        crate::bytes::lemma_splice_index(written(buf, front), 0, ks.last());
    }
}

/// The last key written stands at the front.
proof fn lemma_written_last(buf: Seq<u8>, ks: Seq<Seq<u8>>)
    requires
        all_fit(ks, buf.len()),
        ks.len() > 0,
    ensures
        written(buf, ks).take(ks.last().len() as int) == ks.last(),
{
    let front = ks.drop_last();
    assert forall|i: int| 0 <= i < front.len() implies (#[trigger] front[i]).len()
        <= buf.len() by {
        assert(front[i] == ks[i]);
    }
    lemma_written_len(buf, front);
    assert(ks[ks.len() - 1].len() <= buf.len());
    let n = ks.last().len() as int;
    crate::bytes::lemma_splice_read(written(buf, front), 0, ks.last(), 0, n);
    assert(written(buf, ks).take(n) =~= written(buf, ks).subrange(0, n));
    assert(ks.last().subrange(0, n) =~= ks.last());
}

/// A source holds a version of the key in view, a deletion or a value.
pub open spec fn held(v: ScannedV, d: DimsV, max_seq: u64, k: Seq<u8>) -> bool {
    ||| first_at(v.mem, k, max_seq) is Some
    ||| exists|l: int, x: int|
        at(v.levels, l, x) && first_at(
            tab_recs(v.content, #[trigger] v.levels[l][x], d),
            k,
            max_seq,
        ) is Some
}

/// The value that a scan shows for a key: what a read at the scan's limit
/// returns at tick zero, before which nothing expires.
pub open spec fn shown(v: ScannedV, d: DimsV, max_seq: u64, k: Seq<u8>) -> Option<Seq<u8>> {
    super::view::read_spec(v.mem, v.content, v.levels, d, k, max_seq, 0, None)
}

/// The memtable and every table hold their records by ascending key.
spec fn sources_sorted(v: ScannedV, d: DimsV) -> bool {
    &&& key_sorted(v.mem)
    &&& forall|l: int, x: int|
        at(v.levels, l, x) ==> key_sorted(tab_recs(v.content, #[trigger] v.levels[l][x], d))
}

/// The first entry at or past the floor is the newest of its key, and no
/// key between the floor and it is held.
proof fn lemma_stop_first(
    recs: Seq<Rec>,
    floor: Seq<u8>,
    strict: bool,
    max_seq: u64,
    n: int,
    k: Seq<u8>,
)
    requires
        key_sorted(recs),
        first_stop(recs, floor, strict, max_seq, n),
        beyond(floor, strict, k),
    ensures
        n < recs.len() && recs[n].key == k ==> first_at(recs, k, max_seq) == Some(recs[n]),
        n == recs.len() || lex_lt(k, recs[n].key) ==> first_at(recs, k, max_seq) is None,
{
    lemma_first_at(recs, k, max_seq);
    crate::bytes::lemma_lex_irreflexive(k);
    assert forall|i: int| 0 <= i < n implies !#[trigger] visible_version(recs, k, max_seq, i) by {
        assert(!stops(floor, strict, max_seq, recs[i]));
    }
    if n < recs.len() && recs[n].key == k {
        assert(visible_version(recs, k, max_seq, n));
        let i = choose|i: int|
            #[trigger] is_hit(recs, k, max_seq, i) && recs[i] == first_at(recs, k, max_seq)->0;
        assert(is_hit(recs, k, max_seq, i));
        assert(i == n) by {
            if i < n {
                assert(!visible_version(recs, k, max_seq, i));
            } else if i > n {
                assert(!visible_version(recs, k, max_seq, n));
            }
        }
    } else if n == recs.len() || lex_lt(k, recs[n].key) {
        assert forall|i: int| !#[trigger] visible_version(recs, k, max_seq, i) by {
            if n <= i < recs.len() {
                assert(lex_le(recs[n].key, recs[i].key));
                crate::bytes::lemma_lex_lt_le(k, recs[n].key, recs[i].key);
            }
        }
    }
}

/// Moving the floor past a key moves the stop on.
proof fn lemma_stop_moves(
    recs: Seq<Rec>,
    floor: Seq<u8>,
    strict: bool,
    m: Seq<u8>,
    max_seq: u64,
    a: int,
    n: int,
)
    requires
        first_stop(recs, floor, strict, max_seq, a),
        beyond(floor, strict, m),
        first_stop(recs.skip(a), m, true, max_seq, n),
    ensures
        first_stop(recs, m, true, max_seq, a + n),
{
    assert forall|g: int| 0 <= g < a + n implies !stops(m, true, max_seq, #[trigger] recs[g]) by {
        if g < a {
            assert(!stops(floor, strict, max_seq, recs[g]));
            lemma_beyond(floor, strict, m, recs[g].key);
        } else {
            assert(recs.skip(a)[g - a] == recs[g]);
        }
    }
    if a + n < recs.len() {
        assert(recs.skip(a)[n] == recs[a + n]);
    }
}

/// Cursor `b` is cursor `a` moved to its first entry past the key.
spec fn moved<const KEY_MAX: usize, const VAL_MAX: usize>(
    a: Parked<KEY_MAX, VAL_MAX>,
    b: Parked<KEY_MAX, VAL_MAX>,
    c: Map<u64, Seq<u8>>,
    key: Seq<u8>,
    max_seq: u64,
) -> bool {
    let s = a.rest(c);
    exists|n: int| #[trigger]
        first_stop(s.recs, key, true, max_seq, n) && b.rest(c) == (StreamV {
            recs: s.recs.skip(n),
            fault: s.fault,
        })
}

/// Inputs that only shrink have no more left.
proof fn lemma_left_less(x: Seq<StreamV>, y: Seq<StreamV>)
    requires
        x.len() == y.len(),
        forall|j: int| 0 <= j < x.len() ==> (#[trigger] y[j]).recs.len() <= x[j].recs.len(),
    ensures
        left_in(y) <= left_in(x),
        forall|j: int|
            0 <= j < x.len() && (#[trigger] y[j]).recs.len() < x[j].recs.len() ==> left_in(y)
                < left_in(x),
    decreases x.len(),
{
    if x.len() > 0 {
        let xs = x.drop_last();
        let ys = y.drop_last();
        assert forall|j: int| 0 <= j < xs.len() implies (#[trigger] ys[j]).recs.len()
            <= xs[j].recs.len() by {
            assert(ys[j] == y[j]);
        }
        lemma_left_less(xs, ys);
        assert(y[y.len() - 1].recs.len() <= x[x.len() - 1].recs.len());
        assert forall|j: int|
            0 <= j < x.len() && (#[trigger] y[j]).recs.len() < x[j].recs.len() implies left_in(y)
            < left_in(x) by {
            if j < xs.len() {
                assert(ys[j].recs.len() < xs[j].recs.len());
            }
        }
    }
}

/// A key past a key past the floor is past the floor.
proof fn lemma_beyond(floor: Seq<u8>, strict: bool, m: Seq<u8>, k: Seq<u8>)
    requires
        beyond(floor, strict, m),
    ensures
        lex_lt(m, k) ==> beyond(floor, strict, k),
{
    if lex_lt(m, k) {
        if strict {
            crate::bytes::lemma_lex_transitive(floor, m, k);
        } else {
            crate::bytes::lemma_lex_le_lt(floor, m, k);
            crate::bytes::lemma_lex_asymmetric(floor, k);
        }
    }
}

/// The record is a version that the memtable or a table holds.
pub open spec fn holds(v: ScannedV, d: DimsV, e: Rec) -> bool {
    ||| v.mem.contains(e) && !e.range_del
    ||| exists|l: int, x: int|
        at(v.levels, l, x) && tab_recs(v.content, #[trigger] v.levels[l][x], d).contains(e)
}

/// One key holds one version per sequence.
pub open spec fn agree(v: ScannedV, d: DimsV) -> bool {
    forall|e: Rec, f: Rec|
        #![trigger holds(v, d, e), holds(v, d, f)]
        holds(v, d, e) && holds(v, d, f) && e.key == f.key && e.seq == f.seq ==> e == f
}

/// Sequences start at one.
pub open spec fn numbered(v: ScannedV, d: DimsV) -> bool {
    forall|e: Rec| #[trigger] holds(v, d, e) ==> e.seq >= 1
}

/// A hit of one source is a version.
pub(super) proof fn lemma_hit_held(v: ScannedV, d: DimsV, recs: Seq<Rec>, k: Seq<u8>, max_seq: u64)
    requires
        recs == v.mem || exists|l: int, x: int|
            at(v.levels, l, x) && recs == tab_recs(v.content, #[trigger] v.levels[l][x], d),
    ensures
        first_at(recs, k, max_seq) matches Some(e) ==> holds(v, d, e) && e.key == k,
{
    lemma_first_at(recs, k, max_seq);
    if first_at(recs, k, max_seq) is Some {
        let e = first_at(recs, k, max_seq)->0;
        let i = choose|i: int| #[trigger] is_hit(recs, k, max_seq, i) && recs[i] == e;
        assert(recs[i] == e);
        assert(recs.contains(e));
    }
}

/// The best version is the one offered by a source that no source's offer
/// is newer than.
pub(super) proof fn lemma_best(v: ScannedV, d: DimsV, max_seq: u64, k: Seq<u8>, w: Option<Rec>)
    requires
        agree(v, d),
        numbered(v, d),
        w is Some ==> first_at(v.mem, k, max_seq) == w || exists|l: int, x: int|
            at(v.levels, l, x) && first_at(
                tab_recs(v.content, #[trigger] v.levels[l][x], d),
                k,
                max_seq,
            ) == w,
        first_at(v.mem, k, max_seq) matches Some(e) ==> w is Some && e.seq <= w->0.seq,
        forall|l: int, x: int|
            at(v.levels, l, x) ==> (first_at(
                tab_recs(v.content, #[trigger] v.levels[l][x], d),
                k,
                max_seq,
            ) matches Some(e) ==> w is Some && e.seq <= w->0.seq),
    ensures
        acc_over(
            mem_acc(v.mem, k, max_seq),
            v.content,
            read_order(v.levels),
            d,
            k,
            max_seq,
            None,
        ).best == w,
{
    let ts = read_order(v.levels);
    let a = mem_acc(v.mem, k, max_seq);
    let b = acc_over(a, v.content, ts, d, k, max_seq, None).best;
    lemma_acc_best(a, v.content, ts, d, k, max_seq, None);
    lemma_hit_held(v, d, v.mem, k, max_seq);
    if b != a.best {
        let i = choose|i: int|
            0 <= i < ts.len() && first_at(tab_recs(v.content, #[trigger] ts[i], d), k, max_seq)
                == b;
        let (l, x) = lemma_read_order(v.levels, i);
        assert(v.levels[l][x] == ts[i]);
        lemma_hit_held(v, d, tab_recs(v.content, v.levels[l][x], d), k, max_seq);
    }
    if w is Some {
        let e = w->0;
        if first_at(v.mem, k, max_seq) != w {
            let (l, x) = choose|l: int, x: int|
                at(v.levels, l, x) && first_at(
                    tab_recs(v.content, #[trigger] v.levels[l][x], d),
                    k,
                    max_seq,
                ) == w;
            let i = lemma_order_has(v.levels, l, x);
            assert(ts[i] == v.levels[l][x]);
            lemma_hit_held(v, d, tab_recs(v.content, v.levels[l][x], d), k, max_seq);
        }
        assert(holds(v, d, e));
        assert(e.seq <= best_seq(b));
        assert(b is Some);
        assert(holds(v, d, b->0));
        assert(b->0.seq == e.seq);
    }
}

/// A version is hidden exactly when the highest tombstone over its key is
/// newer.
proof fn lemma_hidden(v: ScannedV, d: DimsV, max_seq: u64, k: Seq<u8>, above: u64)
    ensures
        hidden(v.mem, v.content, v.levels, d, k, max_seq, above) == (acc_over(
            mem_acc(v.mem, k, max_seq),
            v.content,
            read_order(v.levels),
            d,
            k,
            max_seq,
            None,
        ).cover > above),
{
    let ts = read_order(v.levels);
    let a = mem_acc(v.mem, k, max_seq);
    let q = acc_over(a, v.content, ts, d, k, max_seq, None).cover;
    lemma_acc_cover(a, v.content, ts, d, k, max_seq, None);
    if q > above {
        if q != a.cover {
            let i = choose|i: int|
                0 <= i < ts.len() && cover_of(
                    tab_rdels(v.content, #[trigger] ts[i], d),
                    k,
                    max_seq,
                ) == Some(q);
            let (l, x) = lemma_read_order(v.levels, i);
            assert(v.levels[l][x] == ts[i]);
            assert(hides(tab_rdels(v.content, v.levels[l][x], d), k, max_seq, above));
        }
    }
    if exists|l: int, x: int|
        at(v.levels, l, x) && hides(
            tab_rdels(v.content, #[trigger] v.levels[l][x], d),
            k,
            max_seq,
            above,
        ) {
        let (l, x) = choose|l: int, x: int|
            at(v.levels, l, x) && hides(
                tab_rdels(v.content, #[trigger] v.levels[l][x], d),
                k,
                max_seq,
                above,
            );
        let i = lemma_order_has(v.levels, l, x);
        assert(ts[i] == v.levels[l][x]);
    }
}

} // verus!

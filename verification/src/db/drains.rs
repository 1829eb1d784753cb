//! When a flush or an ingest is owed success, and why it is refused.

use vstd::prelude::*;

use super::archive::SealedTable;
use super::flush::run_fits;
use super::ingest::copy_check;
use super::place::{at, placed, sits};
use super::room::headroom;
use super::Db;
use crate::device::BlockDevice;
use crate::error::Error;
use crate::manifest::flat;
use crate::manifest_format::{total_tables, TabV};
use crate::slots::SlotMap;
use crate::sstable::capacity::points_of;
use crate::sstable::fitting::{law_entries_pack, law_table_writes};
use crate::sstable::format::index_bytes;
use crate::sstable::writer::{pack, pack_check};

verus! {

/// The number of tables is that of the levels, each with its own.
pub proof fn law_tables_counted(ls: Seq<Seq<TabV>>, ts: Seq<TabV>)
    ensures
        total_tables(Seq::empty()) == 0,
        total_tables(ls.push(ts)) == total_tables(ls) + ts.len(),
    decreases ls.len(),
{
    let v = ls.push(ts);
    if ls.len() > 0 {
        law_tables_counted(ls.skip(1), ts);
        assert(v.skip(1) =~= ls.skip(1).push(ts));
    } else {
        assert(v.skip(1) =~= Seq::<Seq<TabV>>::empty());
    }
}

proof fn lemma_flat_total(ls: Seq<Seq<TabV>>)
    ensures
        flat(ls).len() == total_tables(ls),
    decreases ls.len(),
{
    if ls.len() > 0 {
        lemma_flat_total(ls.drop_last());
        law_tables_counted(ls.drop_last(), ls.last());
        assert(ls.drop_last().push(ls.last()) =~= ls);
    }
}

/// Where a table of the flat list stands.
proof fn lemma_flat_at(ls: Seq<Seq<TabV>>, k: int) -> (r: (int, int))
    requires
        0 <= k < flat(ls).len(),
    ensures
        at(ls, r.0, r.1),
        flat(ls)[k] == ls[r.0][r.1],
        k == flat(ls.take(r.0)).len() + r.1,
    decreases ls.len(),
{
    let d = ls.drop_last();
    let n = flat(d).len();
    if k < n {
        let (l, i) = lemma_flat_at(d, k);
        assert(d.take(l) =~= ls.take(l));
        (l, i)
    } else {
        assert(ls.take(ls.len() - 1) =~= d);
        (ls.len() - 1, k - n)
    }
}

/// A copied block is refused for its checksum, or for an id past the last.
proof fn lemma_copy_refusals<E>(src: Map<u64, Seq<u8>>, src_base: u64, n: nat)
    ensures
        copy_check::<E>(src, src_base, n) matches Err(e) ==> e is CorruptBlock || (
        e is CorruptManifest && src_base + n > u64::MAX),
    decreases n,
{
    if n > 0 {
        lemma_copy_refusals::<E>(src, src_base, (n - 1) as nat);
    }
}

/// The slot that a table sits in.
spec fn slot_at(slots: SlotMap, t: TabV) -> u32 {
    choose|s: u32| #[trigger] sits(slots, t, s) && slots.used(s)
}

/// While some slot holds no table, there are fewer tables than slots.
proof fn lemma_fewer_tables(slots: SlotMap, levels: Seq<Seq<TabV>>, x: u32)
    requires
        placed(slots, levels),
        x < slots.slot_count(),
        !slots.used(x),
    ensures
        total_tables(levels) < slots.slot_count(),
{
    let ts = flat(levels);
    let n = slots.slot_count() as int;
    let ss = Seq::new(ts.len(), |k: int| slot_at(slots, ts[k]) as int);
    lemma_flat_total(levels);
    assert forall|k: int| 0 <= k < ts.len() implies {
        &&& 0 <= #[trigger] ss[k] < n
        &&& ss[k] != x
        &&& sits(slots, ts[k], ss[k] as u32)
    } by {
        let (l, i) = lemma_flat_at(levels, k);
        assert(super::place::housed(slots, levels[l][i]));
    }
    assert(ss.no_duplicates()) by {
        assert forall|a: int, b: int| 0 <= a < ss.len() && 0 <= b < ss.len() && a != b implies ss[a]
            != ss[b] by {
            if ss[a] == ss[b] {
                let (l, i) = lemma_flat_at(levels, a);
                let (m, j) = lemma_flat_at(levels, b);
                let s = ss[a] as u32;
                assert(sits(slots, levels[l][i], s) && sits(slots, levels[m][j], s));
            }
        }
    }
    ss.unique_seq_to_set();
    let all = vstd::set_lib::set_int_range(0, n);
    vstd::set_lib::lemma_int_range(0, n);
    let rest = all.remove(x as int);
    assert(all.contains(x as int));
    assert(ss.to_set().subset_of(rest)) by {
        assert forall|v: int| ss.to_set().contains(v) implies rest.contains(v) by {
            let k = ss.index_of(v);
            assert(ss[k] == v);
        }
    }
    vstd::set_lib::lemma_len_subset(ss.to_set(), rest);
}

impl<
    D: BlockDevice,
    const BLOCK: usize,
    const KEY_MAX: usize,
    const VAL_MAX: usize,
    const CAP: usize,
    const ARENA: usize,
    const LEVELS: usize,
    const TABLES: usize,
    const BLOOM_BYTES: usize,
    const CACHE: usize,
> Db<D, BLOCK, KEY_MAX, VAL_MAX, CAP, ARENA, LEVELS, TABLES, BLOOM_BYTES, CACHE> {
    /// There is room for a table exactly when a slot is free and, where
    /// there are levels to compact into, three slots hold no live table:
    /// two are left to compaction. A single level keeps none back.
    pub proof fn law_room(&self)
        requires
            self.wf(),
            self.is_opened(),
        ensures
            self.has_room() <==> {
                &&& exists|i: u32|
                    i < self.slot_map().slot_count() && !(#[trigger] self.slot_map().used(i))
                        && !self.slot_map().reserved(i)
                &&& LEVELS >= 2 ==> self.slot_map().used_count() + 3
                    <= self.slot_map().slot_count()
            },
            self.no_room_error() == (if exists|l: int|
                0 <= l < LEVELS - 1 && (#[trigger] self.man().levels[l]).len() >= TABLES {
                Error::<D::Error>::NeedsCompaction
            } else {
                Error::<D::Error>::RegionFull
            }),
    {
        self.lemma_wf();
        let s = self.slot_map();
        s.law_slot_conservation();
        if exists|i: u32|
            i < s.slot_count() && !(#[trigger] s.used(i)) && !s.reserved(i) {
            let i = choose|i: u32|
                i < s.slot_count() && !(#[trigger] s.used(i)) && !s.reserved(i);
            assert(s.is_free(i));
            if LEVELS < 2 {
                assert(headroom(s) > 0) by {
                    s.lemma_one_unused(i);
                }
            }
        }
        if self.has_room() {
            let i = choose|i: u32| #[trigger] s.is_free(i);
            assert(i < s.slot_count() && !s.used(i) && !s.reserved(i));
        }
    }

    /// A flush is owed success: with an entry to write, level 0 not full,
    /// a free slot among three without a live table, entries that fit a
    /// block each and an index that fits its block, it writes one table,
    /// adds it to level 0, and empties the memtable; only the device, or a
    /// counter at its end, can fail it.
    #[verifier::rlimit(40)]
    pub proof fn law_flush_accepts(
        a: &Self,
        b: &Self,
        r: Result<(), Error<D::Error>>,
        x: u32,
        y: u32,
        z: u32,
    )
        requires
            a.wf(),
            a.is_opened(),
            a.tidy(),
            Self::flushed(a, b, r),
            a.mem().len() > 0,
            a.man().levels[0].len() < TABLES,
            x < a.slot_map().slot_count(),
            !a.slot_map().used(x),
            !a.slot_map().reserved(x),
            LEVELS >= 2 ==> {
                &&& y < a.slot_map().slot_count()
                &&& z < a.slot_map().slot_count()
                &&& x != y && y != z && x != z
                &&& !a.slot_map().used(y)
                &&& !a.slot_map().used(z)
            },
            BLOCK <= 0x1_0000,
            forall|i: int|
                0 <= i < a.mem().len() && !(#[trigger] a.mem()[i]).range_del ==> 21
                    + a.mem()[i].key.len() + a.mem()[i].val.len() + (if a.mem()[i].expire_at != 0 {
                    8int
                } else {
                    0
                }) <= BLOCK,
            forall|base: u64|
                (#[trigger] index_bytes(
                    pack(points_of(a.mem()), BLOCK as int),
                    base,
                    pack(points_of(a.mem()), BLOCK as int).len() as int,
                )).len() <= BLOCK - 4,
            a.man().next_table_id < u32::MAX,
            a.man().seq < u64::MAX,
        ensures
            match r {
                Ok(()) => {
                    &&& b.mem().len() == 0
                    &&& b.man().levels.len() == LEVELS
                    &&& b.man().levels[0].len() == a.man().levels[0].len() + 1
                    &&& b.man().levels[0].drop_last() == a.man().levels[0]
                    &&& b.man().levels[0].last().id == a.man().next_table_id
                    &&& forall|l: int|
                        1 <= l < LEVELS ==> #[trigger] b.man().levels[l] == a.man().levels[l]
                    &&& b.man().seq == a.man().seq + 1
                    &&& b.man().next_table_id == a.man().next_table_id + 1
                },
                Err(e) => e is Device && b.mem() == a.mem() && b.man() == a.man(),
            },
    {
        reveal(Db::tidy);
        a.lemma_wf();
        a.lemma_mem_ok();
        a.law_room();
        let s = a.slot_map();
        let mem = a.mem();
        let ps = points_of(mem);
        let block = BLOCK as int;
        if LEVELS >= 2 {
            s.law_three_unused(x, y, z);
        }
        assert(s.is_free(x));
        lemma_fewer_tables(s, a.man().levels, x);
        assert forall|i: int| 0 <= i < ps.len() implies ({
            let e = #[trigger] ps[i];
            let vl: nat = if e.tombstone {
                0
            } else {
                e.val.len()
            };
            let ttl: nat = if !e.tombstone && e.expire_at != 0 {
                8
            } else {
                0
            };
            1 <= e.key.len() <= KEY_MAX && e.key.len() <= 0xFFFF && vl <= 0xFFFF && 13
                + e.key.len() + vl + ttl + 8 <= block
        }) by {
            let k = super::flush::lemma_points_from(mem, i);
            assert(super::flush::mem_rec_ok(mem[k], KEY_MAX as int, VAL_MAX as int));
            assert(!mem[k].range_del);
        }
        law_entries_pack::<D::Error>(ps, block);
        assert(a.flush_stop() is None);
        assert forall|base: u64| base + pack(ps, block).len() <= u64::MAX implies #[trigger]
            run_fits::<D::Error>(base, Self::probes(ps.len() as int), ps, block, KEY_MAX) by {
            assert(index_bytes(pack(ps, block), base, pack(ps, block).len() as int).len() <= block
                - 4);
            law_table_writes::<D::Error>(
                base,
                Self::probes(ps.len() as int),
                pack(ps, block).len() as u64,
                ps,
                block,
                KEY_MAX,
            );
        }
        if !(r matches Err(e) && e is Device && b.same_state(a)) {
            let t = choose|t: u32| #[trigger]
                super::room::next_free(s, t) && Self::flushed_into(a, b, t, r);
            let lo = s.base_of(t as int);
            a.lemma_flush_sits(t);
            a.lemma_fits_slot();
            assert(run_fits::<D::Error>(
                lo as u64,
                Self::probes(ps.len() as int),
                ps,
                block,
                KEY_MAX,
            ));
            assert(a.flush_fails(lo as u64) is None);
            if r is Ok {
                assert(b.man().levels[0].drop_last() =~= a.man().levels[0]);
            }
        }
    }

    /// A flush is refused only for want of room, and says what would make
    /// it: with level 0 full, or no slot to spare, the caller is told to
    /// compact while some level is full, and that the region is full
    /// otherwise. Nothing is lost.
    pub proof fn law_flush_refuses(a: &Self, b: &Self, r: Result<(), Error<D::Error>>)
        requires
            a.wf(),
            a.is_opened(),
            Self::flushed(a, b, r),
            a.mem().len() > 0,
            a.man().levels[0].len() >= TABLES || (pack_check::<D::Error>(
                points_of(a.mem()),
                BLOCK as int,
            ) is Ok && ((LEVELS >= 2 && a.slot_map().used_count() + 3
                > a.slot_map().slot_count()) || forall|i: u32|
                i < a.slot_map().slot_count() ==> #[trigger] a.slot_map().used(i)
                    || a.slot_map().reserved(i))),
        ensures
            b.mem() == a.mem(),
            b.man() == a.man(),
            r matches Err(e) && (e is Device || e == (if exists|l: int|
                0 <= l < LEVELS - 1 && (#[trigger] a.man().levels[l]).len() >= TABLES {
                Error::<D::Error>::NeedsCompaction
            } else {
                Error::<D::Error>::RegionFull
            })),
    {
        a.lemma_wf();
        a.law_room();
    }

    /// An ingest is owed an answer that says what stands in its way: an id
    /// that is live is taken, for the same table, as done; level 0 or the
    /// region may be full, or the table larger than a slot. Otherwise, with
    /// blocks that check out, it adds the table to level 0.
    pub proof fn law_ingest_accepts(
        a: &Self,
        b: &Self,
        t: SealedTable<KEY_MAX>,
        src: Map<u64, Seq<u8>>,
        src_base: u64,
        r: Result<bool, Error<D::Error>>,
        x: u32,
        y: u32,
        z: u32,
    )
        requires
            a.wf(),
            a.is_opened(),
            a.tidy(),
            Self::ingested(a, b, t, src, src_base, BLOCK, r),
            forall|l: int, i: int|
                0 <= l < LEVELS && 0 <= i < a.man().levels[l].len() ==> (
                #[trigger] a.man().levels[l][i]).id != t.id,
            a.man().levels[0].len() < TABLES,
            t.block_count <= a.slot_map().blocks_per_slot(),
            x < a.slot_map().slot_count(),
            !a.slot_map().used(x),
            !a.slot_map().reserved(x),
            LEVELS >= 2 ==> {
                &&& y < a.slot_map().slot_count()
                &&& z < a.slot_map().slot_count()
                &&& x != y && y != z && x != z
                &&& !a.slot_map().used(y)
                &&& !a.slot_map().used(z)
            },
            a.man().seq < u64::MAX,
        ensures
            match r {
                Ok(added) => {
                    &&& added
                    &&& b.man().levels[0].len() == a.man().levels[0].len() + 1
                    &&& b.man().levels[0].drop_last() == a.man().levels[0]
                    &&& b.man().levels[0].last().id == t.id
                    &&& b.man().next_table_id > t.id || t.id == u32::MAX
                    &&& b.man().next_table_id >= a.man().next_table_id
                    &&& forall|l: int|
                        1 <= l < LEVELS ==> #[trigger] b.man().levels[l] == a.man().levels[l]
                    &&& b.issued_seq() >= t.max_seq && b.issued_seq() >= a.issued_seq()
                    &&& b.mem() == a.mem()
                },
                Err(e) => {
                    &&& e is Device || e is CorruptBlock || (e is CorruptManifest && src_base
                        + t.block_count > u64::MAX)
                    &&& b.mem() == a.mem()
                    &&& b.man() == a.man()
                },
            },
    {
        reveal(Db::tidy);
        a.lemma_wf();
        a.law_room();
        let s = a.slot_map();
        if LEVELS >= 2 {
            s.law_three_unused(x, y, z);
        }
        assert(s.is_free(x));
        lemma_fewer_tables(s, a.man().levels, x);
        assert(!super::live_id(a.man().levels, t.id)) by {
            if super::live_id(a.man().levels, t.id) {
            }
        }
        let q = choose|q: u32| #[trigger]
            super::room::next_free(s, q) && Self::ingested_into(a, b, t, src, src_base, q, r);
        lemma_copy_refusals::<D::Error>(src, src_base, t.block_count as nat);
        if r is Ok {
            assert(b.man().levels[0].drop_last() =~= a.man().levels[0]);
        }
    }
}

} // verus!

//! When the copy of a table attaches.

use vstd::prelude::*;

use super::archive::SealedTable;
use super::ingest::{copy_check, holds_table, ingest_check, shifted};
use super::place::at;
use super::view::{is_run_of, DimsV};
use super::Db;
use crate::bytes::le_bytes;
use crate::device::BlockDevice;
use crate::error::Error;
use crate::sstable::bloom::bloom_of;
use crate::sstable::format::{
    crc_ok, foot_bytes, group_ok, index_bytes, law_data_block_reads_back, law_footer_reads_back,
    lemma_sealed, rdel_block, rdels_bytes, RDEL_TRAILER,
};
use crate::sstable::relocate::{law_relocated_table, move_check, relocated};
use crate::sstable::table::{keys_of, RunV};
use crate::wal::padded;

verus! {

/// Blocks that check out copy whole.
proof fn lemma_copies<E>(src: Map<u64, Seq<u8>>, src_base: u64, n: nat)
    requires
        src_base + n <= u64::MAX,
        forall|i: int| 0 <= i < n ==> crc_ok(#[trigger] src[(src_base + i) as u64]),
    ensures
        copy_check::<E>(src, src_base, n) == Ok::<(), Error<E>>(()),
    decreases n,
{
    if n > 0 {
        lemma_copies::<E>(src, src_base, (n - 1) as nat);
        assert(crc_ok(src[(src_base + (n - 1)) as u64]));
    }
}

/// Every block of a table checks out.
proof fn lemma_blocks_check(run: RunV, c: Map<u64, Seq<u8>>, block: int, bloom: int, i: int)
    requires
        run.wf(block, bloom),
        run.on(c, block, bloom),
        0 <= i < run.groups.len() + run.rgroups.len() + 3,
    ensures
        crc_ok(c[(run.base + i) as u64]),
{
    let g = run.groups.len() as int;
    let r = run.rgroups.len() as int;
    if i < g {
        assert(group_ok(run.groups[i], block));
        law_data_block_reads_back(c[(run.base + i) as u64], run.groups[i], block);
    } else if i < g + r {
        let j = i - g;
        assert(c[(run.rdel_at() + j) as u64] == rdel_block(
            run.rgroups[j],
            block,
        ));
        let rs = run.rgroups[j];
        lemma_sealed(
            padded(rdels_bytes(rs), (block - RDEL_TRAILER) as nat) + le_bytes(rs.len(), 2),
        );
    } else if i == g + r {
        lemma_sealed(
            padded(
                bloom_of(keys_of(run.recs()), run.k, bloom as nat),
                (block - 4) as nat,
            ),
        );
    } else if i == g + r + 1 {
        lemma_sealed(
            padded(
                index_bytes(run.groups, run.base, run.groups.len() as int),
                (block - 4) as nat,
            ),
        );
    } else {
        lemma_sealed(padded(foot_bytes(run.foot()), (block - 4) as nat));
    }
}

impl<
    D: BlockDevice,
    const BLOCK: usize,
    const KEY_MAX: usize,
    const VAL_MAX: usize,
    const CAP: usize,
    const ARENA: usize,
    const LEVELS: usize,
    const TABLES: usize,
    const BLOOM_BYTES: usize,
    const CACHE: usize,
> Db<D, BLOCK, KEY_MAX, VAL_MAX, CAP, ARENA, LEVELS, TABLES, BLOOM_BYTES, CACHE> {
    /// A whole copy of a table's blocks passes every check of an ingest,
    /// wherever it is to go.
    pub proof fn law_copy_passes(
        t: SealedTable<KEY_MAX>,
        src: Map<u64, Seq<u8>>,
        src_base: u64,
        dst: u64,
        run: RunV,
        home: Map<u64, Seq<u8>>,
    )
        requires
            holds_table(src, src_base, t, Self::dims(), run, home),
            t.min_seq == run.min_seq,
            src_base + t.block_count <= u64::MAX,
            dst + t.block_count <= u64::MAX,
        ensures
            ingest_check::<D::Error, KEY_MAX>(src, src_base, dst, t) == Ok::<(), Error<D::Error>>(
                (),
            ),
    {
        let d: DimsV = Self::dims();
        let n = t.block_count as int;
        let c0 = shifted(src, src_base, dst);
        assert(is_run_of(run, home, t.placed_at(run.base), d));
        assert forall|i: int| 0 <= i < n implies crc_ok(#[trigger] src[(src_base + i) as u64]) by {
            lemma_blocks_check(run, home, d.block, d.bloom, i);
            assert(src[(src_base + i) as u64] == home[(run.base + i) as u64]);
        }
        lemma_copies::<D::Error>(src, src_base, n as nat);
        assert forall|i: int| 0 <= i < n implies c0[(dst + i) as u64] == #[trigger] home[(run.base
            + i) as u64] by {
            assert(src[(src_base + i) as u64] == home[(run.base + i) as u64]);
        }
        match move_check(c0, dst, t.block_count, t.rdel_blocks) {
            Err(id) => {
                let r = Err::<(), Error<D::Error>>(Error::CorruptBlock { id });
                assert(relocated::<D::Error>(c0, c0, dst, t.block_count, t.rdel_blocks, r));
                law_relocated_table::<D::Error>(
                    run,
                    c0,
                    c0,
                    home,
                    dst,
                    t.block_count,
                    r,
                    d.block,
                    d.bloom,
                );
            },
            Ok(_) => {},
        }
        law_footer_reads_back(run.foot(), d.block);
        let last = n - 1;
        assert(src[(src_base + last) as u64] == home[(run.base + last) as u64]);
        assert(run.base + last == run.footer_at());
    }

    /// An ingest of a whole copy of a table that is not live attaches it,
    /// with level 0 not full, a slot that takes it and room for one: only
    /// the device can fail it.
    pub proof fn law_copy_attaches(
        a: &Self,
        b: &Self,
        t: SealedTable<KEY_MAX>,
        src: Map<u64, Seq<u8>>,
        src_base: u64,
        r: Result<bool, Error<D::Error>>,
        x: u32,
        y: u32,
        z: u32,
        run: RunV,
        home: Map<u64, Seq<u8>>,
    )
        requires
            a.wf(),
            a.is_opened(),
            a.tidy(),
            Self::ingested(a, b, t, src, src_base, BLOCK, r),
            holds_table(src, src_base, t, Self::dims(), run, home),
            t.min_seq == run.min_seq,
            src_base + t.block_count <= u64::MAX,
            forall|l: int, i: int|
                0 <= l < LEVELS && 0 <= i < a.man().levels[l].len() ==> (
                #[trigger] a.man().levels[l][i]).id != t.id,
            a.man().levels[0].len() < TABLES,
            t.block_count <= a.slot_map().blocks_per_slot(),
            x < a.slot_map().slot_count(),
            !a.slot_map().used(x),
            !a.slot_map().reserved(x),
            LEVELS >= 2 ==> {
                &&& y < a.slot_map().slot_count()
                &&& z < a.slot_map().slot_count()
                &&& x != y && y != z && x != z
                &&& !a.slot_map().used(y)
                &&& !a.slot_map().used(z)
            },
            a.man().seq < u64::MAX,
        ensures
            r == Ok::<bool, Error<D::Error>>(true) || (r matches Err(e) && e is Device),
    {
        Self::law_ingest_accepts(a, b, t, src, src_base, r, x, y, z);
        a.lemma_wf();
        let s = a.slot_map();
        if r is Err {
            assert(!super::live_id(a.man().levels, t.id)) by {
                if super::live_id(a.man().levels, t.id) {
                }
            }
            a.law_room();
            if LEVELS >= 2 {
                s.law_three_unused(x, y, z);
            }
            assert(a.has_room());
            let q = choose|q: u32| #[trigger]
                super::room::next_free(s, q) && Self::ingested_into(a, b, t, src, src_base, q, r);
            s.law_slots_tile(q as int, q + 1);
            s.law_slots_tile(q as int, s.slot_count() as int);
            Self::law_copy_passes(t, src, src_base, s.base_of(q as int) as u64, run, home);
        }
    }

    /// An ingest under the id of a live table adds nothing: it is done
    /// where the two agree in everything but their place, and a conflict
    /// where they do not.
    pub proof fn law_ingest_of_live(
        a: &Self,
        b: &Self,
        t: SealedTable<KEY_MAX>,
        src: Map<u64, Seq<u8>>,
        src_base: u64,
        r: Result<bool, Error<D::Error>>,
        l: int,
        i: int,
    )
        requires
            a.wf(),
            a.is_opened(),
            a.tidy(),
            Self::ingested(a, b, t, src, src_base, BLOCK, r),
            0 <= l < a.man().levels.len(),
            0 <= i < a.man().levels[l].len(),
            a.man().levels[l][i].id == t.id,
        ensures
            *b == *a,
            ({
                let u = a.man().levels[l][i];
                let same = u.block_count == t.block_count && u.first_key == t.first_key@
                    && u.last_key == t.last_key@ && u.max_seq == t.max_seq && u.min_seq == t.min_seq
                    && u.entry_count == t.entry_count && u.rdel_blocks == t.rdel_blocks;
                r == (if same {
                    Ok::<bool, Error<D::Error>>(false)
                } else {
                    Err(Error::IngestConflict { id: t.id })
                })
            }),
    {
        reveal(Db::tidy);
        let levels = a.man().levels;
        assert(at(levels, l, i));
        assert(super::live_id(levels, t.id));
        let (m, j) = choose|m: int, j: int|
            {
                let u = #[trigger] levels[m][j];
                &&& at(levels, m, j)
                &&& u.id == t.id
                &&& r == (if u == t.placed_at(u.first_block) {
                    Ok::<bool, Error<D::Error>>(false)
                } else {
                    Err(Error::IngestConflict { id: t.id })
                })
            };
        assert(m == l && j == i);
    }

    /// An ingest that cannot go on says why and changes nothing: the source
    /// has other blocks, level 0 or the region is full, or the table is
    /// larger than a slot.
    pub proof fn law_ingest_refuses(
        a: &Self,
        b: &Self,
        t: SealedTable<KEY_MAX>,
        src: Map<u64, Seq<u8>>,
        src_base: u64,
        src_block: usize,
        r: Result<bool, Error<D::Error>>,
    )
        requires
            a.wf(),
            a.is_opened(),
            Self::ingested(a, b, t, src, src_base, src_block, r),
            forall|l: int, i: int|
                0 <= l < LEVELS && 0 <= i < a.man().levels[l].len() ==> (
                #[trigger] a.man().levels[l][i]).id != t.id,
            src_block != BLOCK || a.man().levels[0].len() >= TABLES || t.block_count
                > a.slot_map().blocks_per_slot() || (LEVELS >= 2 && a.slot_map().used_count() + 3
                > a.slot_map().slot_count()),
        ensures
            *b == *a,
            ({
                let full = if exists|l: int|
                    0 <= l < LEVELS - 1 && (#[trigger] a.man().levels[l]).len() >= TABLES {
                    Error::<D::Error>::NeedsCompaction
                } else {
                    Error::<D::Error>::RegionFull
                };
                r == Err::<bool, Error<D::Error>>(
                    if src_block != BLOCK {
                        Error::BadBufferLen
                    } else if a.man().levels[0].len() >= TABLES {
                        full
                    } else if t.block_count > a.slot_map().blocks_per_slot() {
                        Error::TableTooLarge
                    } else {
                        full
                    },
                )
            }),
    {
        a.lemma_wf();
        a.law_room();
        assert(!super::live_id(a.man().levels, t.id)) by {
            if super::live_id(a.man().levels, t.id) {
            }
        }
    }
}

} // verus!

//! Live tables stay in slots and under ids of their own.

use vstd::prelude::*;

use super::archive::{lemma_dropped_ids, SealedTable};
use super::flush::flush_tab;
use super::ingest::lemma_ids_joined;
use super::place::{at, lemma_place_insert, lemma_place_remove, sits};
use super::room::next_free;
use super::Db;
use crate::device::BlockDevice;
use crate::error::Error;

verus! {

impl<
    D: BlockDevice,
    const BLOCK: usize,
    const KEY_MAX: usize,
    const VAL_MAX: usize,
    const CAP: usize,
    const ARENA: usize,
    const LEVELS: usize,
    const TABLES: usize,
    const BLOOM_BYTES: usize,
    const CACHE: usize,
> Db<D, BLOCK, KEY_MAX, VAL_MAX, CAP, ARENA, LEVELS, TABLES, BLOOM_BYTES, CACHE> {
    /// A flush, whatever comes of it, keeps live tables in slots of their
    /// own, and under ids of their own where they were.
    pub proof fn law_flush_tidy(a: &Self, b: &Self, r: Result<(), Error<D::Error>>)
        requires
            a.wf(),
            a.is_opened(),
            a.seated(),
            Self::flushed(a, b, r),
        ensures
            b.seated(),
            a.tidy() ==> b.tidy(),
    {
        a.lemma_wf();
        a.lemma_tidy_seated();
        b.lemma_tidy_seated();
        if b.slot_map() == a.slot_map() && b.man().levels == a.man().levels
            && b.man().next_table_id == a.man().next_table_id {
            Self::lemma_seated_same(a, b);
        } else {
            let s = choose|s: u32| #[trigger]
                next_free(a.slot_map(), s) && Self::flushed_into(a, b, s, r);
            let base = a.slot_map().base_of(s as int) as u64;
            let id = a.man().next_table_id;
            let t = flush_tab(a.mem(), id, base, BLOCK as int);
            reveal(Db::seated);
            Self::lemma_flush_placed(a, b, s);
            if a.tidy() {
                assert(!super::live_id(a.man().levels, id)) by {
                    if super::live_id(a.man().levels, id) {
                        let (l, i) = choose|l: int, i: int|
                            at(a.man().levels, l, i) && (#[trigger] a.man().levels[l][i]).id == id;
                        assert(super::issued(a.man().levels[l][i].id, id));
                    }
                }
                lemma_ids_joined(a.man().levels, b.man().levels, t, id, b.man().next_table_id);
            }
        }
    }

    /// An archival, whatever comes of it, keeps live tables in slots of
    /// their own, and under ids of their own where they were.
    pub proof fn law_archive_tidy(
        a: &Self,
        b: &Self,
        level: int,
        i: int,
        r: Result<bool, Error<D::Error>>,
    )
        requires
            a.wf(),
            a.is_opened(),
            a.seated(),
            at(a.man().levels, level, i),
            Self::archived(a, b, level, i, r),
        ensures
            b.seated(),
            a.tidy() ==> b.tidy(),
    {
        a.lemma_wf();
        a.lemma_tidy_seated();
        b.lemma_tidy_seated();
        if r is Err {
            Self::lemma_seated_same(a, b);
        } else {
            reveal(Db::seated);
            let levels = a.man().levels;
            let t = levels[level][i];
            if a.tidy() {
                lemma_dropped_ids(levels, level, i, a.man().next_table_id);
            }
            assert(super::place::housed(a.slot_map(), levels[level][i]));
            let s = choose|s: u32| #[trigger] sits(a.slot_map(), t, s) && a.slot_map().used(s);
            assert forall|x: u32| #[trigger]
                b.slot_map().used(x) == (a.slot_map().used(x) && x != s) by {
                if sits(a.slot_map(), t, x) {
                    a.slot_map().law_one_slot(x, s, t.first_block, t.block_count as u64);
                }
            }
            lemma_place_remove(a.slot_map(), b.slot_map(), levels, level, i, s);
        }
    }

    /// Attaching a table, whatever comes of it, keeps live tables in slots
    /// of their own, and under ids of their own where they were.
    pub proof fn law_ingest_tidy(
        a: &Self,
        b: &Self,
        t: SealedTable<KEY_MAX>,
        src: Map<u64, Seq<u8>>,
        src_base: u64,
        src_block: usize,
        r: Result<bool, Error<D::Error>>,
    )
        requires
            a.wf(),
            a.is_opened(),
            a.seated(),
            Self::ingested(a, b, t, src, src_base, src_block, r),
        ensures
            b.seated(),
            a.tidy() ==> b.tidy(),
    {
        a.lemma_wf();
        a.lemma_tidy_seated();
        b.lemma_tidy_seated();
        if b.slot_map() == a.slot_map() && b.man() == a.man() {
            Self::lemma_seated_same(a, b);
        } else {
            let s = choose|s: u32| #[trigger]
                next_free(a.slot_map(), s) && Self::ingested_into(a, b, t, src, src_base, s, r);
            if r is Err {
                Self::lemma_seated_same(a, b);
            } else {
                reveal(Db::seated);
                let l0 = a.man().levels;
                let n = l0[0].len() as int;
                let u = t.placed_at(a.slot_map().base_of(s as int) as u64);
                a.slot_map().law_slots_tile(s as int, s + 1);
                a.slot_map().law_slots_tile(s as int, a.slot_map().slot_count() as int);
                if s > 0 {
                    a.slot_map().law_slots_tile(0, s as int);
                }
                if a.tidy() {
                    lemma_ids_joined(
                        l0,
                        b.man().levels,
                        u,
                        a.man().next_table_id,
                        b.man().next_table_id,
                    );
                }
                assert(sits(a.slot_map(), u, s));
                lemma_place_insert(a.slot_map(), b.slot_map(), l0, 0, n, u, s);
                assert(l0[0].insert(n, u) =~= l0[0].push(u));
            }
        }
    }
}

} // verus!

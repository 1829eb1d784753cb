//! Compaction, archiving and attaching are durable once committed.

use vstd::prelude::*;

use super::archive::SealedTable;
use super::compaction::JobV;
use super::room::next_free;
use super::Db;
use crate::device::BlockDevice;
use crate::error::Error;
use crate::sstable::writer::WriterV;

verus! {

impl<
    D: BlockDevice,
    const BLOCK: usize,
    const KEY_MAX: usize,
    const VAL_MAX: usize,
    const CAP: usize,
    const ARENA: usize,
    const LEVELS: usize,
    const TABLES: usize,
    const BLOOM_BYTES: usize,
    const CACHE: usize,
> Db<D, BLOCK, KEY_MAX, VAL_MAX, CAP, ARENA, LEVELS, TABLES, BLOOM_BYTES, CACHE> {
    /// A slot lies among the slots.
    proof fn lemma_slot_among(&self, s: u32)
        requires
            self.slot_map().wf(),
            s < self.slot_map().slot_count(),
        ensures
            self.slot_map().base_of(0) <= self.slot_map().base_of(s as int),
            self.slot_map().base_of(s + 1) <= self.slot_map().base_of(
                self.slot_map().slot_count() as int,
            ),
    {
        self.slot_map().law_slots_tile(s as int, self.slot_map().slot_count() as int);
        if s > 0 {
            self.slot_map().law_slots_tile(0, s as int);
        }
    }

    /// A committed compaction is durable: the state can be recovered from
    /// the device.
    pub proof fn law_compaction_durable(a: &Self, b: &Self, j: JobV, w: WriterV)
        requires
            a.wf(),
            a.sound(),
            a.durable(),
            b.wf(),
            a.job_fits(j),
            Self::committed(a, b, j, w),
        ensures
            b.durable(),
    {
        a.lemma_wf();
        a.lemma_slot_among(j.slot);
        Self::lemma_commit_durable(
            a,
            b,
            a.slot_map().base_of(j.slot as int),
            a.slot_map().base_of(j.slot + 1),
        );
    }

    /// A committed archiving is durable.
    pub proof fn law_archive_durable(a: &Self, b: &Self, level: int, i: int)
        requires
            a.wf(),
            a.sound(),
            a.durable(),
            b.wf(),
            Self::archived(a, b, level, i, Ok::<bool, Error<D::Error>>(true)),
        ensures
            b.durable(),
    {
        a.lemma_wf();
        Self::lemma_commit_durable(a, b, 0, 0);
    }

    /// An attached table is durable.
    pub proof fn law_ingest_durable(
        a: &Self,
        b: &Self,
        t: SealedTable<KEY_MAX>,
        src: Map<u64, Seq<u8>>,
        src_base: u64,
        s: u32,
    )
        requires
            a.wf(),
            a.sound(),
            a.durable(),
            b.wf(),
            next_free(a.slot_map(), s),
            Self::ingested_into(a, b, t, src, src_base, s, Ok::<bool, Error<D::Error>>(true)),
        ensures
            b.durable(),
    {
        a.lemma_wf();
        a.lemma_slot_among(s);
        Self::lemma_commit_durable(
            a,
            b,
            a.slot_map().base_of(s as int),
            a.slot_map().base_of(s + 1),
        );
    }
}

} // verus!

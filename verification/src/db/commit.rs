//! Manifest commits: the atomic visibility point of every table change.

use vstd::prelude::*;

use super::Db;
use crate::device::{same_outside, synced, BlockDevice};
use crate::error::Error;
use crate::manifest::{encodable, holds_copy, lemma_stride, Manifest};
use crate::manifest_format::ManV;

verus! {

/// The manifest as the next commit stores it.
pub open spec fn next_copy(v: ManV) -> ManV {
    ManV { seq: (v.seq + 1) as u64, ..v }
}

impl<
    D: BlockDevice,
    const BLOCK: usize,
    const KEY_MAX: usize,
    const VAL_MAX: usize,
    const CAP: usize,
    const ARENA: usize,
    const LEVELS: usize,
    const TABLES: usize,
    const BLOOM_BYTES: usize,
    const CACHE: usize,
> Db<D, BLOCK, KEY_MAX, VAL_MAX, CAP, ARENA, LEVELS, TABLES, BLOOM_BYTES, CACHE> {
    /// First block of the manifest copy that the next commit writes.
    pub open spec fn copy_at(&self) -> int {
        let l = self.config().layout_v();
        l.start_of((self.man().seq + 1) % l.n(), Self::stride())
    }

    /// The copy lies in the address space, apart from the WAL and the
    /// tables.
    pub proof fn lemma_copy_at(&self)
        requires
            self.wf(),
            self.is_opened(),
        ensures
            0 <= self.copy_at(),
            self.copy_at() + Self::stride() <= u64::MAX,
            super::apart(
                self.copy_at(),
                self.copy_at() + Self::stride(),
                self.config().wal_start as int,
                self.config().wal_end as int,
            ),
            super::apart(
                self.copy_at(),
                self.copy_at() + Self::stride(),
                self.slot_map().base_of(0),
                self.slot_map().base_of(self.slot_map().slot_count() as int),
            ),
            self.config().layout_v().fits(Self::stride()),
    {
        let l = self.config().layout_v();
        let k = (self.man().seq + 1) % l.n();
        l.lemma_n();
        self.lemma_wf();
        self.manifest.lemma_wf();
        lemma_stride(self.man(), LEVELS, TABLES, KEY_MAX, BLOCK as nat);
        l.lemma_start_nonneg(k, Self::stride());
        assert(self.config().copy_ok(k, Self::stride()));
        assert forall|j: int| 0 <= j < l.n() implies #[trigger] l.start_of(j, Self::stride())
            + Self::stride() <= u64::MAX by {
            assert(self.config().copy_ok(j, Self::stride()));
        }
    }

    /// Commits `staged` as the new manifest: the single atomic visibility
    /// point. It is applied in memory only once the commit landed, so an
    /// error leaves the in-memory state exactly as it was and the operation
    /// can simply be retried.
    ///
    /// # Errors
    ///
    /// [`Error::NoSpace`] when the commit counter is used up, or
    /// [`Error::Device`] on I/O failure.
    pub(super) fn commit_manifest(
        &mut self,
        staged: Manifest<LEVELS, TABLES, KEY_MAX>,
    ) -> (r: Result<(), Error<D::Error>>)
        requires
            old(self).wf(),
            old(self).is_opened(),
            staged.wf(),
            staged@.seq == old(self).man().seq,
        ensures
            *final(self) == (Db {
                wal: final(self).wal,
                manifest: final(self).manifest,
                get_scratch: final(self).get_scratch,
                ..*old(self)
            }),
            final(self).wal.wf(),
            final(self).wal.same_region(&old(self).wal),
            final(self).wal.next() == old(self).wal.next(),
            final(self).wal.staged() == old(self).wal.staged(),
            final(self).manifest.wf(),
            same_outside(
                old(self).content(),
                final(self).content(),
                old(self).copy_at(),
                old(self).copy_at() + Self::stride(),
            ),
            final(self).synced_since(
                old(self),
                old(self).copy_at(),
                old(self).copy_at() + Self::stride(),
            ),
            match r {
                Ok(()) => {
                    &&& final(self).kept() == final(self).content()
                    &&& staged@.seq < u64::MAX
                    &&& final(self).man() == next_copy(staged@)
                    &&& encodable(final(self).man(), BLOCK as nat)
                    &&& holds_copy(
                        final(self).content(),
                        final(self).man(),
                        old(self).copy_at(),
                        BLOCK as nat,
                    )
                },
                Err(e) => {
                    &&& final(self).manifest == old(self).manifest
                    &&& if staged@.seq == u64::MAX {
                        e == Error::<D::Error>::NoSpace && final(self).content() == old(
                            self,
                        ).content()
                    } else {
                        e is Device
                    }
                },
            },
    {
        proof {
            self.lemma_wf();
            self.lemma_copy_at();
        }
        let layout = self.manifest_layout();
        let mut staged: Manifest<LEVELS, TABLES, KEY_MAX> = staged;
        let ghost v0 = staged@;
        let r = staged.commit_to(self.wal.device_mut(), &mut self.get_scratch, layout);
        proof {
            staged.lemma_wf();
            lemma_stride(staged@, LEVELS, TABLES, KEY_MAX, BLOCK as nat);
            assert forall|x: u64|
                !(old(self).copy_at() <= x < old(self).copy_at() + Self::stride()) && old(
                    self,
                ).synced(x) implies #[trigger] self.synced(x) by {
                assert(synced(&old(self).wal.dev(), x));
                assert(synced(&self.wal.dev(), x));
            }
        }
        match r {
            Ok(()) => {
                self.manifest = staged;
                Ok(())
            },
            Err(e) => Err(e),
        }
    }
}

} // verus!

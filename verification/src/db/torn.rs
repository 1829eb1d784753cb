//! What a torn commit leaves: a crash before the manifest commit is whole
//! leaves the state from before it.

use vstd::prelude::*;

use super::durable::{lemma_replay_same, stale, whole};
use super::flush::touches_only;
use super::{copies_apart, Db};
use crate::device::{same_blocks, same_outside, BlockDevice};
use crate::manifest::{
    holds_copy, law_recovery_reads_copies_only, law_torn_commit_keeps_previous, lemma_best_is, not_newer,
    lemma_copy_reads_back, lemma_probe_same, lemma_stride, spare_copy, ManifestLayout,
};
use crate::manifest_format::{copy_blocks, probe_of, ProbeV, BLOCK_FRAME};

verus! {

/// Device `a` with the blocks `[lo, hi)` of `b`.
spec fn patched(a: Map<u64, Seq<u8>>, b: Map<u64, Seq<u8>>, lo: int, hi: int) -> Map<u64, Seq<u8>> {
    Map::new(
        |id: u64| true,
        |id: u64|
            if lo <= id < hi {
                b[id]
            } else {
                a[id]
            },
    )
}

impl<
    D: BlockDevice,
    const BLOCK: usize,
    const KEY_MAX: usize,
    const VAL_MAX: usize,
    const CAP: usize,
    const ARENA: usize,
    const LEVELS: usize,
    const TABLES: usize,
    const BLOOM_BYTES: usize,
    const CACHE: usize,
> Db<D, BLOCK, KEY_MAX, VAL_MAX, CAP, ARENA, LEVELS, TABLES, BLOOM_BYTES, CACHE> {
    /// The copy that the next commit writes to.
    pub open spec fn next_slot(&self) -> int {
        (self.man().seq + 1) % self.config().layout_v().n()
    }

    /// The next commit writes to a copy that a recovery does not read.
    pub open spec fn spares_next(&self) -> bool {
        spare_copy(
            self.content(),
            self.config().layout_v(),
            Self::stride(),
            BLOCK - BLOCK_FRAME,
            self.next_slot(),
        )
    }

    /// A commit interrupted anywhere leaves the previous state durable:
    /// with table blocks and the next manifest copy in any condition short
    /// of a whole new copy, a recovery finds the state from before. The copy
    /// may still be the older one that stood there.
    pub proof fn law_torn_commit_durable(a: &Self, b: &Self, lo: int, hi: int)
        requires
            a.wf(),
            a.is_opened(),
            a.durable(),
            a.spares_next(),
            b.man() == a.man(),
            b.mem() == a.mem(),
            b.config() == a.config(),
            b.issued_seq() == a.issued_seq(),
            b.wal_next() == a.wal_next(),
            touches_only(
                a.content(),
                b.content(),
                lo,
                hi,
                a.copy_at(),
                a.copy_at() + Self::stride(),
            ),
            lo >= hi || (a.slot_map().base_of(0) <= lo && hi <= a.slot_map().base_of(
                a.slot_map().slot_count() as int,
            )),
            b.copy_probe(a.next_slot()) matches ProbeV::Intact { seq, .. } ==> seq < a.man().seq,
            b.kept() == b.content(),
        ensures
            b.durable(),
    {
        let l = a.config().layout_v();
        let stride = Self::stride();
        let cfg = a.config();
        let k0 = a.next_slot();
        let c0 = a.content();
        let c1 = b.content();
        let mid = patched(c0, c1, a.copy_at(), a.copy_at() + stride);
        a.lemma_wf();
        a.lemma_copy_at();
        a.manifest.lemma_wf();
        l.lemma_n();
        lemma_stride(a.man(), LEVELS, TABLES, KEY_MAX, BLOCK as nat);
        l.lemma_start_nonneg(k0, stride);
        assert(cfg.copy_ok(k0, stride));
        assert(same_outside(c0, mid, a.copy_at(), a.copy_at() + stride));
        assert forall|i: int, j: int|
            0 <= i < l.n() && 0 <= j < l.n() && i != j implies #[trigger] l.start_of(i, stride)
            + stride <= #[trigger] l.start_of(j, stride) || l.start_of(j, stride) + stride
            <= l.start_of(i, stride) by {
            if i < j {
                assert(copies_apart(l.start_of(i, stride), l.start_of(j, stride), stride));
            } else {
                assert(copies_apart(l.start_of(j, stride), l.start_of(i, stride), stride));
            }
        }
        assert forall|j: int| 0 <= j < l.n() implies same_blocks(
            mid,
            c1,
            #[trigger] l.start_of(j, stride),
            l.start_of(j, stride) + stride,
        ) by {
            assert(cfg.copy_ok(j, stride));
            l.lemma_start_nonneg(j, stride);
        }
        lemma_probe_same(mid, c1, a.copy_at() as u64, stride, BLOCK - BLOCK_FRAME);
        assert(not_newer(c0, mid, l, stride, BLOCK - BLOCK_FRAME, k0));
        law_torn_commit_keeps_previous(
            c0,
            mid,
            l,
            k0,
            LEVELS,
            TABLES,
            KEY_MAX,
            BLOCK as nat,
        );
        law_recovery_reads_copies_only(mid, c1, l, LEVELS, TABLES, KEY_MAX, BLOCK as nat);
        assert(b.recovery() == a.recovery());
        assert forall|k: int| 0 <= k < l.n() implies (#[trigger] b.copy_probe(
            k,
        ) matches ProbeV::Intact { seq, .. } ==> seq <= b.man().seq) by {
            if k != k0 {
                assert(cfg.copy_ok(k, stride));
                l.lemma_start_nonneg(k, stride);
                let s = l.start_of(k, stride);
                assert(same_blocks(c0, c1, s, s + stride));
                lemma_probe_same(c0, c1, s as u64, stride, BLOCK - BLOCK_FRAME);
                assert(b.copy_probe(k) == a.copy_probe(k));
            }
        }
        assert forall|x: u64| cfg.wal_start <= x < cfg.wal_end implies #[trigger] c0[x]
            == c1[x] by {}
        lemma_replay_same(
            c0,
            c1,
            a.man().wal_head as int,
            a.wal_next() as int,
            Seq::empty(),
            a.man().flushed_seq,
            CAP,
            ARENA,
            KEY_MAX,
            VAL_MAX,
        );
        assert forall|x: u64| b.man().wal_head <= x < b.wal_next() implies whole(
            #[trigger] c1[x],
        ) by {
            assert(c0[x] == c1[x]);
        }
        assert forall|x: u64| b.wal_next() <= x < cfg.wal_end implies stale(
            #[trigger] c1[x],
            b.man().flushed_seq,
        ) by {
            assert(c0[x] == c1[x]);
        }
        assert forall|x: u64| cfg.wal_start <= x < b.man().wal_head implies stale(
            #[trigger] c1[x],
            b.man().flushed_seq,
        ) by {
            assert(c0[x] == c1[x]);
        }
        assert forall|x: u64| cfg.wal_start <= x < cfg.wal_end implies stale(
            #[trigger] c1[x],
            b.issued_seq(),
        ) by {
            assert(c0[x] == c1[x]);
        }
    }

    /// After a commit the next one writes to another copy: the copy just
    /// written is the one that a recovery reads.
    pub proof fn law_commit_spares(a: &Self, b: &Self, lo: int, hi: int)
        requires
            a.wf(),
            a.is_opened(),
            a.durable(),
            b.wf(),
            b.config() == a.config(),
            a.man().seq < u64::MAX,
            b.man().seq == a.man().seq + 1,
            touches_only(
                a.content(),
                b.content(),
                lo,
                hi,
                a.copy_at(),
                a.copy_at() + Self::stride(),
            ),
            lo >= hi || (a.slot_map().base_of(0) <= lo && hi <= a.slot_map().base_of(
                a.slot_map().slot_count() as int,
            )),
            holds_copy(b.content(), b.man(), a.copy_at(), BLOCK as nat),
        ensures
            b.spares_next(),
    {
        let l = a.config().layout_v();
        let cfg = a.config();
        let stride = Self::stride();
        let k0 = a.next_slot();
        let c0 = a.content();
        let c1 = b.content();
        a.lemma_wf();
        a.lemma_copy_at();
        b.manifest.lemma_wf();
        l.lemma_n();
        l.lemma_start_nonneg(k0, stride);
        lemma_stride(b.man(), LEVELS, TABLES, KEY_MAX, BLOCK as nat);
        lemma_copy_reads_back(c1, b.man(), a.copy_at() as u64, stride, BLOCK as nat);
        assert forall|j: int| 0 <= j < l.n() && j != k0 implies (#[trigger] probe_of(
            c1,
            l.start_of(j, stride) as u64,
            stride,
            BLOCK - BLOCK_FRAME,
        ) matches ProbeV::Intact { seq, .. } ==> seq < b.man().seq) by {
            assert(cfg.copy_ok(j, stride));
            assert(cfg.copy_ok(k0, stride));
            l.lemma_start_nonneg(j, stride);
            let s = l.start_of(j, stride);
            if j < k0 {
                assert(copies_apart(l.start_of(j, stride), l.start_of(k0, stride), stride));
            } else {
                assert(copies_apart(l.start_of(k0, stride), l.start_of(j, stride), stride));
            }
            assert(same_blocks(c0, c1, s, s + stride));
            lemma_probe_same(c0, c1, s as u64, stride, BLOCK - BLOCK_FRAME);
            assert(a.copy_probe(j) == probe_of(
                c0,
                l.start_of(j, stride) as u64,
                stride,
                BLOCK - BLOCK_FRAME,
            ));
        }
        lemma_best_is(
            c1,
            l,
            stride,
            BLOCK - BLOCK_FRAME,
            l.n() as nat,
            k0,
            b.man().seq,
            copy_blocks(b.man(), BLOCK as nat) as nat,
        );
        let k1 = b.next_slot();
        let n = l.n();
        ManifestLayout::lemma_two_copies(
            a.config().manifest_a,
            a.config().manifest_b,
            a.config().manifest_ring,
        );
        assert(k1 != k0) by {
            let q = a.man().seq + 1;
            assert(k0 == q % n && k1 == (q + 1) % n);
            assert(q % n != (q + 1) % n) by (nonlinear_arith)
                requires
                    n >= 2,
                    q >= 0,
            ;
        }
        l.lemma_start_nonneg(k1, stride);
        if k0 < k1 {
            assert(copies_apart(l.start_of(k0, stride), l.start_of(k1, stride), stride));
        } else {
            assert(copies_apart(l.start_of(k1, stride), l.start_of(k0, stride), stride));
        }
    }
}

} // verus!

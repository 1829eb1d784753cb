//! Recovery after a run of manifest commits.

use vstd::prelude::*;

use crate::device::same_outside;
use crate::manifest::{
    best_copy, copies_disjoint, encodable, holds_copy, law_commit_then_recover,
    law_torn_commit_keeps_previous, lemma_best_is, lemma_copy_reads_back, lemma_probe_same,
    lemma_stride, manifest_shape, max_blocks_of, recovery_of, spare_copy, ManifestLayout, Recovery,
};
use crate::manifest_format::{copy_blocks, fits_shape, probe_of, ManV, ProbeV, BLOCK_FRAME};

verus! {

/// The shape of a manifest and where its copies stand.
pub struct RunShape {
    pub layout: ManifestLayout,
    pub nlevels: usize,
    pub tables: usize,
    pub key_max: usize,
    pub block: nat,
}

impl RunShape {
    /// Blocks between the starts of two copies.
    pub open spec fn stride(self) -> int {
        max_blocks_of(self.nlevels, self.tables, self.key_max, self.block)
    }

    /// Copies of the shape fit their places and share no block.
    pub open spec fn ok(self) -> bool {
        &&& manifest_shape(self.nlevels, self.tables, self.key_max)
        &&& self.block > BLOCK_FRAME
        &&& self.layout.fits(self.stride())
        &&& copies_disjoint(self.layout, self.stride())
        &&& self.layout.n() >= 2
    }

    /// What copy `j` holds.
    pub open spec fn probe(self, c: Map<u64, Seq<u8>>, j: int) -> ProbeV {
        probe_of(
            c,
            self.layout.start_of(j, self.stride()) as u64,
            self.stride(),
            self.block - BLOCK_FRAME,
        )
    }

    /// What a recovery finds.
    pub open spec fn recovered(self, c: Map<u64, Seq<u8>>) -> Recovery {
        recovery_of(c, self.layout, self.nlevels, self.tables, self.key_max, self.block)
    }
}

/// A commit: the manifest, the copy that it was written to, and the blocks
/// after it.
pub struct CommitV {
    pub v: ManV,
    pub k: int,
    pub c: Map<u64, Seq<u8>>,
}

/// The blocks after the first `i` commits.
pub open spec fn content_after(c0: Map<u64, Seq<u8>>, run: Seq<CommitV>, i: int) -> Map<
    u64,
    Seq<u8>,
> {
    if i == 0 {
        c0
    } else {
        run[i - 1].c
    }
}

/// Commit `i` of the run writes a newer manifest to another copy than the
/// commit before it, and nothing else.
pub open spec fn commit_at(p: RunShape, c0: Map<u64, Seq<u8>>, run: Seq<CommitV>, i: int) -> bool {
    let s = run[i];
    let start = p.layout.start_of(s.k, p.stride());
    &&& 0 <= s.k < p.layout.n()
    &&& fits_shape(s.v, p.nlevels as nat, p.tables as nat, p.key_max as nat)
    &&& encodable(s.v, p.block)
    &&& same_outside(content_after(c0, run, i), s.c, start, start + p.stride())
    &&& holds_copy(s.c, s.v, start, p.block)
    &&& i > 0 ==> s.v.seq > run[i - 1].v.seq && s.k != run[i - 1].k
}

/// A run of commits from blocks without a copy.
pub open spec fn commit_run(p: RunShape, c0: Map<u64, Seq<u8>>, run: Seq<CommitV>) -> bool {
    &&& forall|j: int| 0 <= j < p.layout.n() ==> #[trigger] p.probe(c0, j) is Blank
    &&& forall|i: int| 0 <= i < run.len() ==> #[trigger] commit_at(p, c0, run, i)
}

/// The copies besides the last one written are older or were never written.
proof fn lemma_others_older(p: RunShape, c0: Map<u64, Seq<u8>>, run: Seq<CommitV>, n: nat)
    requires
        p.ok(),
        commit_run(p, c0, run),
        0 < n <= run.len(),
    ensures
        forall|j: int|
            0 <= j < p.layout.n() && j != run[n - 1].k ==> (#[trigger] p.probe(
                run[n - 1].c,
                j,
            ) matches ProbeV::Intact { seq, .. } ==> seq < run[n - 1].v.seq),
        p.probe(run[n - 1].c, run[n - 1].k) == (ProbeV::Intact {
            seq: run[n - 1].v.seq,
            count: copy_blocks(run[n - 1].v, p.block) as nat,
        }),
    decreases n,
{
    let s = run[n - 1];
    let stride = p.stride();
    let start = p.layout.start_of(s.k, stride);
    let before = content_after(c0, run, n - 1);
    assert(commit_at(p, c0, run, n - 1));
    lemma_stride(s.v, p.nlevels, p.tables, p.key_max, p.block);
    p.layout.lemma_start_nonneg(s.k, stride);
    assert(start + stride <= u64::MAX);
    lemma_copy_reads_back(s.c, s.v, start as u64, stride, p.block);
    if n > 1 {
        lemma_others_older(p, c0, run, (n - 1) as nat);
    }
    assert forall|j: int| 0 <= j < p.layout.n() && j != s.k implies (#[trigger] p.probe(
        s.c,
        j,
    ) matches ProbeV::Intact { seq, .. } ==> seq < s.v.seq) by {
        let other = p.layout.start_of(j, stride);
        p.layout.lemma_start_nonneg(j, stride);
        assert(other + stride <= u64::MAX);
        lemma_probe_same(before, s.c, other as u64, stride, p.block - BLOCK_FRAME);
        assert(p.probe(s.c, j) == p.probe(before, j));
    }
}

/// After a run of commits a recovery finds the last one's manifest; before
/// the first, that nothing was ever written.
pub proof fn law_run_recovers(p: RunShape, c0: Map<u64, Seq<u8>>, run: Seq<CommitV>)
    requires
        p.ok(),
        commit_run(p, c0, run),
    ensures
        p.recovered(content_after(c0, run, run.len() as int)) == (if run.len() == 0 {
            Recovery::Fresh
        } else {
            Recovery::Found(run.last().v)
        }),
{
    if run.len() == 0 {
        lemma_none_best(p, c0, p.layout.n() as nat);
        assert(p.probe(c0, 0) is Blank);
    } else {
        let n = run.len();
        let s = run[n - 1];
        assert(commit_at(p, c0, run, n - 1));
        lemma_others_older(p, c0, run, n);
        assert forall|j: int| 0 <= j < p.layout.n() && j != s.k implies (#[trigger] probe_of(
            s.c,
            p.layout.start_of(j, p.stride()) as u64,
            p.stride(),
            p.block - BLOCK_FRAME,
        ) matches ProbeV::Intact { seq, .. } ==> seq < s.v.seq) by {
            assert(p.probe(s.c, j) matches ProbeV::Intact { seq, .. } ==> seq < s.v.seq);
        }
        law_commit_then_recover(
            s.c,
            p.layout,
            s.v,
            s.k,
            p.nlevels,
            p.tables,
            p.key_max,
            p.block,
        );
    }
}

/// A commit after a run, torn anywhere, leaves what the run left: the
/// manifest of its last commit, never a mix and never an error. The copy it
/// went to may be damaged, or still hold an older commit's manifest.
pub proof fn law_run_torn(
    p: RunShape,
    c0: Map<u64, Seq<u8>>,
    run: Seq<CommitV>,
    torn: Map<u64, Seq<u8>>,
    k: int,
)
    requires
        p.ok(),
        commit_run(p, c0, run),
        0 <= k < p.layout.n(),
        run.len() > 0 ==> k != run.last().k,
        same_outside(
            content_after(c0, run, run.len() as int),
            torn,
            p.layout.start_of(k, p.stride()),
            p.layout.start_of(k, p.stride()) + p.stride(),
        ),
        p.probe(torn, k) matches ProbeV::Intact { seq, .. } ==> run.len() > 0 && seq
            < run.last().v.seq,
    ensures
        p.recovered(torn) == (if run.len() == 0 {
            Recovery::Fresh
        } else {
            Recovery::Found(run.last().v)
        }),
{
    let before = content_after(c0, run, run.len() as int);
    let chunk = p.block - BLOCK_FRAME;
    law_run_recovers(p, c0, run);
    assert(spare_copy(before, p.layout, p.stride(), chunk, k)) by {
        if run.len() == 0 {
            lemma_none_best(p, c0, p.layout.n() as nat);
            let j: int = if k == 0 {
                1
            } else {
                0
            };
            assert(p.probe(c0, j) is Blank);
        } else {
            let s = run.last();
            assert(commit_at(p, c0, run, run.len() - 1));
            lemma_others_older(p, c0, run, run.len());
            assert forall|j: int| 0 <= j < p.layout.n() && j != s.k implies (#[trigger] probe_of(
                s.c,
                p.layout.start_of(j, p.stride()) as u64,
                p.stride(),
                chunk,
            ) matches ProbeV::Intact { seq, .. } ==> seq < s.v.seq) by {
                assert(p.probe(s.c, j) matches ProbeV::Intact { seq, .. } ==> seq < s.v.seq);
            }
            lemma_best_is(
                s.c,
                p.layout,
                p.stride(),
                chunk,
                p.layout.n() as nat,
                s.k,
                s.v.seq,
                copy_blocks(s.v, p.block) as nat,
            );
            p.layout.lemma_start_nonneg(k, p.stride());
            p.layout.lemma_start_nonneg(s.k, p.stride());
            lemma_stride(s.v, p.nlevels, p.tables, p.key_max, p.block);
        }
    }
    law_torn_commit_keeps_previous(
        before,
        torn,
        p.layout,
        k,
        p.nlevels,
        p.tables,
        p.key_max,
        p.block,
    );
}

/// Without an intact copy there is no best one.
proof fn lemma_none_best(p: RunShape, c: Map<u64, Seq<u8>>, n: nat)
    requires
        n <= p.layout.n(),
        forall|j: int| 0 <= j < p.layout.n() ==> #[trigger] p.probe(c, j) is Blank,
    ensures
        best_copy(c, p.layout, p.stride(), p.block - BLOCK_FRAME, n) is None,
        n > 0 ==> crate::manifest::any_blank(
            c,
            p.layout,
            p.stride(),
            p.block - BLOCK_FRAME,
            n,
        ),
    decreases n,
{
    if n > 0 {
        lemma_none_best(p, c, (n - 1) as nat);
        assert(p.probe(c, n - 1) is Blank);
    }
}

} // verus!

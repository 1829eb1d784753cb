//! Reads without a limit.

use vstd::prelude::*;

use super::compact_reads::{lemma_cover_unbound, lemma_first_unbound};
use super::place::{at, lemma_read_order, lemma_top_flat};
use super::view::{
    acc_over, is_run_of, mem_acc, rdel_inside, read_order, rec_inside, tab_rdels, tab_recs, tab_run,
    tab_sound, AccV, DimsV,
};
use super::Db;
use crate::device::BlockDevice;
use crate::manifest_format::TabV;
use crate::memtable::Rec;
use crate::sstable::capacity::rdels_of;

verus! {

/// The table's entries and tombstones are at or below `max_seq`.
spec fn tab_below(c: Map<u64, Seq<u8>>, t: TabV, d: DimsV, max_seq: u64) -> bool {
    &&& forall|i: int|
        0 <= i < tab_recs(c, t, d).len() ==> (#[trigger] tab_recs(c, t, d)[i]).seq <= max_seq
    &&& forall|i: int|
        0 <= i < tab_rdels(c, t, d).len() ==> (#[trigger] tab_rdels(c, t, d)[i]).seq <= max_seq
}

/// A memtable's tombstones are among its entries.
proof fn lemma_rdels_below(v: Seq<Rec>, max_seq: u64)
    requires
        forall|i: int| 0 <= i < v.len() ==> (#[trigger] v[i]).seq <= max_seq,
    ensures
        forall|i: int| 0 <= i < rdels_of(v).len() ==> (#[trigger] rdels_of(v)[i]).seq <= max_seq,
    decreases v.len(),
{
    if v.len() > 0 {
        let front = v.drop_last();
        assert forall|i: int| 0 <= i < front.len() implies (#[trigger] front[i]).seq <= max_seq by {
            assert(front[i] == v[i]);
        }
        lemma_rdels_below(front, max_seq);
        assert(v[v.len() - 1].seq <= max_seq);
        assert forall|i: int| 0 <= i < rdels_of(v).len() implies (#[trigger] rdels_of(v)[i]).seq
            <= max_seq by {
            if i < rdels_of(front).len() {
                assert(rdels_of(v)[i] == rdels_of(front)[i]);
            }
        }
    }
}

/// A limit above every table's sequences limits nothing.
proof fn lemma_acc_unbound(
    a: AccV,
    c: Map<u64, Seq<u8>>,
    ts: Seq<TabV>,
    d: DimsV,
    key: Seq<u8>,
    max_seq: u64,
)
    requires
        forall|i: int| 0 <= i < ts.len() ==> tab_below(c, #[trigger] ts[i], d, max_seq),
    ensures
        acc_over(a, c, ts, d, key, max_seq, None) == acc_over(a, c, ts, d, key, u64::MAX, None),
    decreases ts.len(),
{
    if ts.len() > 0 {
        let front = ts.drop_last();
        assert forall|i: int| 0 <= i < front.len() implies tab_below(
            c,
            #[trigger] front[i],
            d,
            max_seq,
        ) by {
            assert(front[i] == ts[i]);
        }
        lemma_acc_unbound(a, c, front, d, key, max_seq);
        assert(tab_below(c, ts[ts.len() - 1], d, max_seq));
        lemma_first_unbound(tab_recs(c, ts.last(), d), key, max_seq);
        lemma_cover_unbound(tab_rdels(c, ts.last(), d), key, max_seq);
    }
}

impl<
    D: BlockDevice,
    const BLOCK: usize,
    const KEY_MAX: usize,
    const VAL_MAX: usize,
    const CAP: usize,
    const ARENA: usize,
    const LEVELS: usize,
    const TABLES: usize,
    const BLOOM_BYTES: usize,
    const CACHE: usize,
> Db<D, BLOCK, KEY_MAX, VAL_MAX, CAP, ARENA, LEVELS, TABLES, BLOOM_BYTES, CACHE> {
    /// A read at the watermark of a snapshot just taken, or above it, is a
    /// read without a limit: the snapshot shows everything written so far.
    pub proof fn law_snapshot_is_live(&self, key: Seq<u8>, max_seq: u64, now: u64)
        requires
            self.wf(),
            self.sound(),
            max_seq >= self.issued_seq(),
        ensures
            self.value_at(key, max_seq, now) == self.value_at(key, u64::MAX, now),
    {
        let c = self.content();
        let d = Self::dims();
        let levels = self.man().levels;
        let mem = self.mem();
        let ts = read_order(levels);
        self.lemma_wf();
        assert forall|i: int| 0 <= i < mem.len() implies (#[trigger] mem[i]).seq <= max_seq by {
            crate::memtable::lemma_top_bound(mem, i);
        }
        lemma_first_unbound(mem, key, max_seq);
        lemma_rdels_below(mem, max_seq);
        lemma_cover_unbound(rdels_of(mem), key, max_seq);
        assert(mem_acc(mem, key, max_seq) == mem_acc(mem, key, u64::MAX));
        lemma_top_flat(levels, self.issued_seq());
        assert forall|i: int| 0 <= i < ts.len() implies tab_below(
            c,
            #[trigger] ts[i],
            d,
            max_seq,
        ) by {
            let (l, x) = lemma_read_order(levels, i);
            let t = levels[l][x];
            assert(at(levels, l, x));
            assert(tab_sound(c, t, d));
            let run = tab_run(c, t, d);
            assert(is_run_of(run, c, t, d));
            assert forall|g: int| 0 <= g < tab_recs(c, t, d).len() implies (#[trigger] tab_recs(
                c,
                t,
                d,
            )[g]).seq <= max_seq by {
                assert(rec_inside(t, run.recs()[g]));
            }
            assert forall|j: int| 0 <= j < tab_rdels(c, t, d).len() implies (#[trigger] tab_rdels(
                c,
                t,
                d,
            )[j]).seq <= max_seq by {
                assert(rdel_inside(t, run.rdels()[j]));
            }
        }
        lemma_acc_unbound(mem_acc(mem, key, max_seq), c, ts, d, key, max_seq);
    }
}

} // verus!

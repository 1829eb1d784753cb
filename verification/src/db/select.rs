//! Choosing a compaction job: its inputs, its key range, and what its
//! output may drop.

use vstd::prelude::*;

use super::Db;
use crate::bytes::{
    bytes_lt, lemma_lex_asymmetric, lemma_lex_irreflexive, lemma_lex_le_le, lemma_lex_total, lex_le,
    lex_lt,
};
use crate::compact::bounds::{overlap, ranges_overlap};
use crate::compact::merge::{Input, COMPACTION_KMAX, MAX_SNAPSHOTS};
use crate::device::BlockDevice;
use crate::error::Error;
use crate::keys::KeyBound;
use crate::manifest::{data_blocks_of, refs_wf, tab_views, TableRef};
use crate::manifest_format::TabV;
use crate::slots::SlotMap;
use crate::memtable::{bottom_seq, Rec};

verus! {

/// The tables one compaction job merges, and their range.
#[verifier::ext_equal]
pub struct PickV {
    /// Level and reference of each input.
    pub inputs: Seq<(int, TabV)>,
    /// How many came from the target level.
    pub n_tgt: nat,
    /// Lower end of the merged range.
    pub first: Seq<u8>,
    /// Upper end of the merged range.
    pub last: Seq<u8>,
}

/// The range widened by a table's.
pub open spec fn widened(p: PickV, t: TabV) -> PickV {
    PickV {
        first: if lex_lt(t.first_key, p.first) {
            t.first_key
        } else {
            p.first
        },
        last: if lex_lt(p.last, t.last_key) {
            t.last_key
        } else {
            p.last
        },
        ..p
    }
}

/// One more input.
pub open spec fn with_input(p: PickV, level: int, t: TabV) -> PickV {
    PickV { inputs: p.inputs.push((level, t)), ..p }
}

/// Why a table cannot join.
pub open spec fn join_check<E>(p: PickV, t: TabV) -> Result<(), Error<E>> {
    if p.inputs.len() >= COMPACTION_KMAX {
        Err(Error::NoSpace)
    } else if data_blocks_of(t) is None {
        Err(Error::CorruptBlock { id: t.first_block })
    } else {
        Ok(())
    }
}

/// Every table of level 0 joins: they may overlap each other.
pub open spec fn pick_all<E>(p: PickV, ts: Seq<TabV>) -> Result<PickV, Error<E>>
    decreases ts.len(),
{
    if ts.len() == 0 {
        Ok(p)
    } else {
        match pick_all::<E>(p, ts.drop_last()) {
            Err(e) => Err(e),
            Ok(q) => match join_check::<E>(q, ts.last()) {
                Err(e) => Err(e),
                Ok(()) => Ok(widened(with_input(q, 0, ts.last()), ts.last())),
            },
        }
    }
}

/// The target tables that overlap the merged range join, and widen it.
pub open spec fn pick_overlapping<E>(p: PickV, tgt: int, ts: Seq<TabV>) -> Result<PickV, Error<E>>
    decreases ts.len(),
{
    if ts.len() == 0 {
        Ok(p)
    } else {
        match pick_overlapping::<E>(p, tgt, ts.drop_last()) {
            Err(e) => Err(e),
            Ok(q) => {
                let t = ts.last();
                if !overlap(q.first, q.last, t.first_key, t.last_key) {
                    Ok(q)
                } else {
                    match join_check::<E>(q, t) {
                        Err(e) => Err(e),
                        Ok(()) => Ok(
                            widened(PickV { n_tgt: q.n_tgt + 1, ..with_input(q, tgt, t) }, t),
                        ),
                    }
                }
            },
        }
    }
}

/// The inputs of a job: all of a full level 0, or the oldest table of a
/// full deeper level, plus the overlapping tables of the level below.
pub open spec fn picked<E>(src: int, ss: Seq<TabV>, ts: Seq<TabV>) -> Result<PickV, Error<E>> {
    let p0 = PickV {
        inputs: Seq::empty(),
        n_tgt: 0,
        first: ss[0].first_key,
        last: ss[0].last_key,
    };
    let from_src = if src == 0 {
        pick_all::<E>(p0, ss)
    } else {
        match join_check::<E>(p0, ss[0]) {
            Err(e) => Err(e),
            Ok(()) => Ok(with_input(p0, src, ss[0])),
        }
    };
    match from_src {
        Err(e) => Err(e),
        Ok(p) => pick_overlapping::<E>(p, src + 1, ts),
    }
}

/// The deepest full level above the bottommost.
pub open spec fn deepest_full(levels: Seq<Seq<TabV>>, tables: int, n: int) -> Option<int>
    decreases n,
{
    if n <= 0 {
        None
    } else if levels[n - 1].len() >= tables {
        Some(n - 1)
    } else {
        deepest_full(levels, tables, n - 1)
    }
}

/// Nothing below level `tgt` overlaps the range.
pub open spec fn is_bottom(
    levels: Seq<Seq<TabV>>,
    tgt: int,
    first: Seq<u8>,
    last: Seq<u8>,
) -> bool {
    forall|l: int, i: int|
        tgt < l < levels.len() && 0 <= i < levels[l].len() ==> !overlap(
            first,
            last,
            (#[trigger] levels[l][i]).first_key,
            levels[l][i].last_key,
        )
}

/// The id is that of an input.
pub open spec fn in_job(inputs: Seq<(int, TabV)>, id: u32) -> bool {
    exists|k: int| 0 <= k < inputs.len() && (#[trigger] inputs[k]).1.id == id
}

/// A table outside the job that overlaps the range.
pub open spec fn outside(
    inputs: Seq<(int, TabV)>,
    first: Seq<u8>,
    last: Seq<u8>,
    t: TabV,
) -> bool {
    !in_job(inputs, t.id) && overlap(first, last, t.first_key, t.last_key)
}

/// `floor` is the lowest sequence that the memtable, or a table outside the
/// job, could hold for a key in the range.
pub open spec fn is_outside_floor(
    mem: Seq<Rec>,
    levels: Seq<Seq<TabV>>,
    inputs: Seq<(int, TabV)>,
    first: Seq<u8>,
    last: Seq<u8>,
    floor: u64,
) -> bool {
    &&& floor <= bottom_seq(mem)
    &&& forall|l: int, i: int|
        0 <= l < levels.len() && 0 <= i < levels[l].len() && outside(
            inputs,
            first,
            last,
            #[trigger] levels[l][i],
        ) ==> floor <= levels[l][i].min_seq
    &&& floor == bottom_seq(mem) || exists|l: int, i: int|
        0 <= l < levels.len() && 0 <= i < levels[l].len() && outside(
            inputs,
            first,
            last,
            #[trigger] levels[l][i],
        ) && floor == levels[l][i].min_seq
}

/// The inputs of a scratch.
pub open spec fn inputs_of<const KEY_MAX: usize>(ins: Seq<Input<KEY_MAX>>, n: int) -> Seq<
    (int, TabV),
> {
    Seq::new(n as nat, |i: int| (ins[i].level as int, ins[i].tref@))
}

/// The tables one compaction job merges, chosen by `compact_select`.
pub struct JobInputs<const KEY_MAX: usize> {
    /// Total input tables pushed into the scratch.
    pub n_inputs: usize,
    /// Of those, how many came from the target level.
    pub n_tgt_inputs: usize,
    /// Merged key-range closure over all inputs.
    pub first: KeyBound<KEY_MAX>,
    /// Upper end of the same.
    pub last: KeyBound<KEY_MAX>,
    /// Summed entry counts (for the bloom filter sizing).
    pub total_entries: u64,
}

/// Summed entry counts of inputs.
pub open spec fn entries_of(inputs: Seq<(int, TabV)>) -> nat
    decreases inputs.len(),
{
    if inputs.len() == 0 {
        0
    } else {
        entries_of(inputs.drop_last()) + inputs.last().1.entry_count as nat
    }
}

impl<const KEY_MAX: usize> JobInputs<KEY_MAX> {
    /// The choice, in the scratch's input slots.
    pub open spec fn of(&self, ins: Seq<Input<KEY_MAX>>, p: PickV) -> bool {
        &&& self.n_inputs <= COMPACTION_KMAX
        &&& inputs_of(ins, self.n_inputs as int) == p.inputs
        &&& self.n_tgt_inputs == p.n_tgt
        &&& self.n_tgt_inputs <= self.n_inputs
        &&& self.first.wf()
        &&& self.last.wf()
        &&& self.first@ == p.first
        &&& self.last@ == p.last
        &&& self.total_entries == entries_of(p.inputs)
        &&& self.total_entries <= self.n_inputs * 0xFFFF_FFFF
    }

    /// Pushes one input table.
    fn push<E>(
        &mut self,
        inputs: &mut [Input<KEY_MAX>; COMPACTION_KMAX],
        level: usize,
        t: &TableRef<KEY_MAX>,
        Ghost(p): Ghost<PickV>,
    ) -> (r: Result<(), Error<E>>)
        requires
            old(self).of(old(inputs)@, p),
            t.wf(),
            forall|i: int| 0 <= i < COMPACTION_KMAX ==> (#[trigger] old(inputs)@[i]).tref.wf(),
        ensures
            r == join_check::<E>(p, t@),
            r is Ok ==> final(self).of(final(inputs)@, with_input(p, level as int, t@)),
            forall|i: int| 0 <= i < COMPACTION_KMAX ==> (#[trigger] final(inputs)@[i]).tref.wf(),
    {
        let ghost ins0 = inputs@;
        if self.n_inputs >= COMPACTION_KMAX {
            return Err(Error::NoSpace);
        }
        if t.data_blocks().is_none() {
            return Err(Error::CorruptBlock { id: t.first_block });
        }
        inputs[self.n_inputs] = Input { level, tref: *t };
        self.n_inputs = self.n_inputs + 1;
        self.total_entries = self.total_entries + t.entry_count as u64;
        proof {
            let q = with_input(p, level as int, t@);
            assert(inputs_of(inputs@, self.n_inputs as int) =~= q.inputs) by {
                assert forall|i: int| 0 <= i < p.inputs.len() implies inputs_of(
                    inputs@,
                    self.n_inputs as int,
                )[i] == #[trigger] p.inputs[i] by {
                    assert(inputs_of(ins0, p.inputs.len() as int)[i] == p.inputs[i]);
                }
            }
            assert(q.inputs.drop_last() =~= p.inputs);
        }
        Ok(())
    }

    /// Widens the merged range by a table's.
    fn widen(
        &mut self,
        t: &TableRef<KEY_MAX>,
        Ghost(ins): Ghost<Seq<Input<KEY_MAX>>>,
        Ghost(p): Ghost<PickV>,
    )
        requires
            old(self).of(ins, p),
            t.wf(),
        ensures
            final(self).of(ins, widened(p, t@)),
    {
        if bytes_lt(t.first_key.as_slice(), self.first.as_slice()) {
            self.first = t.first_key;
        }
        if bytes_lt(self.last.as_slice(), t.last_key.as_slice()) {
            self.last = t.last_key;
        }
    }
}

/// Pushes one compaction job's input tables into the scratch: all of a
/// full L0, or the oldest table of a full deeper level, plus the target
/// level's tables overlapping the merged range. The merged range starts
/// as the source span and widens as overlapping target tables join, so
/// the output span can never swallow a surviving target table.
///
/// `src_tables` is never empty: only levels holding `>= TABLES >= 1`
/// tables are selected.
pub fn select_job_inputs<E, const KEY_MAX: usize>(
    inputs: &mut [Input<KEY_MAX>; COMPACTION_KMAX],
    src: usize,
    src_tables: &[TableRef<KEY_MAX>],
    tgt_tables: &[TableRef<KEY_MAX>],
) -> (r: Result<JobInputs<KEY_MAX>, Error<E>>)
    requires
        src_tables@.len() > 0,
        src < usize::MAX,
        refs_wf(src_tables@),
        refs_wf(tgt_tables@),
        forall|i: int| 0 <= i < COMPACTION_KMAX ==> (#[trigger] old(inputs)@[i]).tref.wf(),
    ensures
        forall|i: int| 0 <= i < COMPACTION_KMAX ==> (#[trigger] final(inputs)@[i]).tref.wf(),
        match picked::<E>(src as int, tab_views(src_tables@), tab_views(tgt_tables@)) {
            Ok(p) => r matches Ok(j) && j.of(final(inputs)@, p),
            Err(e) => r == Err::<JobInputs<KEY_MAX>, Error<E>>(e),
        },
{
    let ghost ss = tab_views(src_tables@);
    let ghost ts = tab_views(tgt_tables@);
    let ghost p0 = PickV {
        inputs: Seq::empty(),
        n_tgt: 0,
        first: ss[0].first_key,
        last: ss[0].last_key,
    };
    assert(src_tables@[0].wf());
    let mut job: JobInputs<KEY_MAX> = JobInputs {
        n_inputs: 0,
        n_tgt_inputs: 0,
        first: src_tables[0].first_key,
        last: src_tables[0].last_key,
        total_entries: 0,
    };
    assert(inputs_of(inputs@, 0) =~= p0.inputs);
    let ghost mut p = p0;
    if src == 0 {
        // L0 tables may overlap each other, so the whole level joins.
        let mut i: usize = 0;
        assert(ss.take(0) =~= Seq::<TabV>::empty());
        while i < src_tables.len()
            invariant
                ss == tab_views(src_tables@),
                src == 0,
                p0 == (PickV {
                    inputs: Seq::empty(),
                    n_tgt: 0,
                    first: ss[0].first_key,
                    last: ss[0].last_key,
                }),
                refs_wf(src_tables@),
                i <= src_tables@.len(),
                forall|k: int| 0 <= k < COMPACTION_KMAX ==> (#[trigger] inputs@[k]).tref.wf(),
                job.of(inputs@, p),
                pick_all::<E>(p0, ss.take(i as int)) == Ok::<PickV, Error<E>>(p),
            decreases src_tables@.len() - i,
        {
            let t: &TableRef<KEY_MAX> = &src_tables[i];
            proof {
                assert(src_tables@[i as int].wf());
                assert(ss.take(i + 1).drop_last() =~= ss.take(i as int));
                assert(ss.take(i + 1).last() == t@);
                lemma_pick_all_prefix::<E>(p0, ss, i + 1);
            }
            match job.push::<E>(inputs, 0, t, Ghost(p)) {
                Ok(()) => {},
                Err(e) => {
                    return Err(e);
                },
            }
            job.widen(t, Ghost(inputs@), Ghost(with_input(p, 0, t@)));
            proof {
                p = widened(with_input(p, 0, t@), t@);
            }
            i = i + 1;
        }
        assert(ss.take(ss.len() as int) =~= ss);
    } else {
        // Deeper levels never overlap within themselves: compact the
        // oldest table. Index 0 is FIFO with no extra state, because
        // the picked table leaves the level.
        match job.push::<E>(inputs, src, &src_tables[0], Ghost(p)) {
            Ok(()) => {},
            Err(e) => {
                return Err(e);
            },
        }
        proof {
            p = with_input(p, src as int, ss[0]);
        }
    }
    // Overlapping target tables join the merge (target runs never
    // overlap each other, so range overlap is the exact join
    // condition).
    let ghost p1 = p;
    let tgt: usize = src + 1;
    let mut i: usize = 0;
    assert(ts.take(0) =~= Seq::<TabV>::empty());
    while i < tgt_tables.len()
        invariant
            ts == tab_views(tgt_tables@),
            ss == tab_views(src_tables@),
            picked::<E>(src as int, ss, ts) == pick_overlapping::<E>(p1, tgt as int, ts),
            refs_wf(tgt_tables@),
            i <= tgt_tables@.len(),
            forall|k: int| 0 <= k < COMPACTION_KMAX ==> (#[trigger] inputs@[k]).tref.wf(),
            job.of(inputs@, p),
            pick_overlapping::<E>(p1, tgt as int, ts.take(i as int)) == Ok::<PickV, Error<E>>(p),
        decreases tgt_tables@.len() - i,
    {
        let t: &TableRef<KEY_MAX> = &tgt_tables[i];
        proof {
            assert(tgt_tables@[i as int].wf());
            assert(ts.take(i + 1).drop_last() =~= ts.take(i as int));
            assert(ts.take(i + 1).last() == t@);
            lemma_pick_overlapping_prefix::<E>(p1, tgt as int, ts, i + 1);
        }
        if ranges_overlap(job.first, job.last, t.first_key, t.last_key) {
            match job.push::<E>(inputs, tgt, t, Ghost(p)) {
                Ok(()) => {},
                Err(e) => {
                    return Err(e);
                },
            }
            job.n_tgt_inputs = job.n_tgt_inputs + 1;
            job.widen(
                t,
                Ghost(inputs@),
                Ghost((PickV { n_tgt: p.n_tgt + 1, ..with_input(p, tgt as int, t@) })),
            );
            proof {
                p = widened(PickV { n_tgt: p.n_tgt + 1, ..with_input(p, tgt as int, t@) }, t@);
            }
        }
        i = i + 1;
    }
    assert(ts.take(ts.len() as int) =~= ts);
    Ok(job)
}

proof fn lemma_pick_all_prefix<E>(p: PickV, ts: Seq<TabV>, n: int)
    requires
        0 <= n <= ts.len(),
    ensures
        pick_all::<E>(p, ts.take(n)) matches Err(e) ==> pick_all::<E>(p, ts) == Err::<
            PickV,
            Error<E>,
        >(e),
    decreases ts.len() - n,
{
    if n < ts.len() {
        lemma_pick_all_prefix::<E>(p, ts, n + 1);
        assert(ts.take(n + 1).drop_last() =~= ts.take(n));
    } else {
        assert(ts.take(n) =~= ts);
    }
}

proof fn lemma_pick_overlapping_prefix<E>(p: PickV, tgt: int, ts: Seq<TabV>, n: int)
    requires
        0 <= n <= ts.len(),
    ensures
        pick_overlapping::<E>(p, tgt, ts.take(n)) matches Err(e) ==> pick_overlapping::<E>(
            p,
            tgt,
            ts,
        ) == Err::<PickV, Error<E>>(e),
    decreases ts.len() - n,
{
    if n < ts.len() {
        lemma_pick_overlapping_prefix::<E>(p, tgt, ts, n + 1);
        assert(ts.take(n + 1).drop_last() =~= ts.take(n));
    } else {
        assert(ts.take(n) =~= ts);
    }
}

/// Where the inputs from level 0 stand.
proof fn lemma_pick_all_stands<E>(p: PickV, ts: Seq<TabV>)
    requires
        p.inputs.len() == 0,
        p.n_tgt == 0,
    ensures
        pick_all::<E>(p, ts) matches Ok(q) ==> {
            &&& q.inputs.len() == ts.len()
            &&& q.n_tgt == 0
            &&& q.inputs.len() <= COMPACTION_KMAX
            &&& forall|x: int| 0 <= x < ts.len() ==> #[trigger] q.inputs[x] == (0int, ts[x])
            &&& forall|x: int| 0 <= x < ts.len() ==> data_blocks_of(#[trigger] ts[x]) is Some
        },
    decreases ts.len(),
{
    if ts.len() > 0 {
        lemma_pick_all_stands::<E>(p, ts.drop_last());
        match pick_all::<E>(p, ts) {
            Ok(q) => {
                let q0 = pick_all::<E>(p, ts.drop_last())->Ok_0;
                assert(q.inputs =~= q0.inputs.push((0int, ts.last())));
                assert forall|x: int| 0 <= x < ts.len() implies #[trigger] q.inputs[x] == (
                    0int,
                    ts[x],
                ) by {
                    if x < ts.len() - 1 {
                        assert(q0.inputs[x] == (0int, ts.drop_last()[x]));
                    }
                }
                assert forall|x: int| 0 <= x < ts.len() implies data_blocks_of(
                    #[trigger] ts[x],
                ) is Some by {
                    if x < ts.len() - 1 {
                        assert(ts.drop_last()[x] == ts[x]);
                    }
                }
            },
            Err(_) => {},
        }
    }
}

/// Where the inputs from the target level stand: at positions that ascend.
proof fn lemma_pick_overlapping_stands<E>(p: PickV, tgt: int, ts: Seq<TabV>) -> (ks: Seq<int>)
    ensures
        pick_overlapping::<E>(p, tgt, ts) matches Ok(q) ==> {
            let n = p.inputs.len();
            &&& q.inputs.len() == n + ks.len()
            &&& q.n_tgt == p.n_tgt + ks.len()
            &&& q.inputs.len() <= COMPACTION_KMAX || ks.len() == 0
            &&& forall|x: int| 0 <= x < n ==> #[trigger] q.inputs[x] == p.inputs[x]
            &&& forall|x: int|
                0 <= x < ks.len() ==> 0 <= #[trigger] ks[x] < ts.len() && q.inputs[n + x] == (
                    tgt,
                    ts[ks[x]],
                ) && data_blocks_of(ts[ks[x]]) is Some
            &&& forall|x: int, y: int|
                #![trigger ks[x], ks[y]]
                0 <= x < y < ks.len() ==> ks[x] < ks[y]
        },
    decreases ts.len(),
{
    if ts.len() == 0 {
        Seq::empty()
    } else {
        let d = ts.drop_last();
        let k0 = lemma_pick_overlapping_stands::<E>(p, tgt, d);
        let n = p.inputs.len() as int;
        match (pick_overlapping::<E>(p, tgt, d), pick_overlapping::<E>(p, tgt, ts)) {
            (Ok(q0), Ok(q)) => {
                if q.inputs.len() == q0.inputs.len() {
                    assert forall|x: int| 0 <= x < k0.len() implies 0 <= #[trigger] k0[x] < ts.len()
                        && q.inputs[n + x] == (tgt, ts[k0[x]]) && data_blocks_of(
                        ts[k0[x]],
                    ) is Some by {
                        assert(d[k0[x]] == ts[k0[x]]);
                    }
                    k0
                } else {
                    let ks = k0.push(ts.len() - 1);
                    assert(q.inputs =~= q0.inputs.push((tgt, ts.last())));
                    assert forall|x: int| 0 <= x < n implies #[trigger] q.inputs[x]
                        == p.inputs[x] by {
                        assert(q0.inputs[x] == p.inputs[x]);
                    }
                    assert forall|x: int| 0 <= x < ks.len() implies 0 <= #[trigger] ks[x] < ts.len()
                        && q.inputs[n + x] == (tgt, ts[ks[x]]) && data_blocks_of(
                        ts[ks[x]],
                    ) is Some by {
                        if x < k0.len() {
                            assert(ks[x] == k0[x]);
                            assert(d[k0[x]] == ts[k0[x]]);
                            assert(q0.inputs[n + x] == (tgt, d[k0[x]]));
                        }
                    }
                    assert forall|x: int, y: int|
                        #![trigger ks[x], ks[y]]
                        0 <= x < y < ks.len() implies ks[x] < ks[y] by {
                        if y < k0.len() {
                            assert(k0[x] < k0[y]);
                        } else {
                            assert(ks[x] == k0[x]);
                        }
                    }
                    ks
                }
            },
            _ => Seq::empty(),
        }
    }
}

/// The inputs of a job are live tables, well formed, each there once.
pub proof fn lemma_picked_live<E>(
    levels: Seq<Seq<TabV>>,
    src: int,
    a: int,
    b: int,
    slots: SlotMap,
)
    requires
        0 <= src < levels.len() - 1,
        1 <= a <= levels[src].len(),
        0 <= b <= levels[src + 1].len(),
        slots.wf(),
        super::place::placed(slots, levels),
    ensures
        picked::<E>(src, levels[src].take(a), levels[src + 1].take(b)) matches Ok(p) ==> {
            &&& 1 <= p.inputs.len() <= COMPACTION_KMAX
            &&& p.n_tgt <= b
            &&& p.n_tgt <= p.inputs.len()
            &&& super::compaction::inputs_live(levels, p.inputs)
            &&& super::compaction::inputs_formed(p.inputs)
            &&& super::compaction::inputs_once(p.inputs)
        },
{
    let ss = levels[src].take(a);
    let ts = levels[src + 1].take(b);
    let p0 = PickV {
        inputs: Seq::empty(),
        n_tgt: 0,
        first: ss[0].first_key,
        last: ss[0].last_key,
    };
    super::place::lemma_first_apart(slots, levels);
    lemma_pick_all_stands::<E>(p0, ss);
    let from_src = if src == 0 {
        pick_all::<E>(p0, ss)
    } else {
        match join_check::<E>(p0, ss[0]) {
            Err(e) => Err(e),
            Ok(()) => Ok(with_input(p0, src, ss[0])),
        }
    };
    match from_src {
        Err(_) => {},
        Ok(p1) => {
            let n = p1.inputs.len() as int;
            assert forall|x: int| 0 <= x < n implies #[trigger] p1.inputs[x] == (src, ss[x]) by {}
            let ks = lemma_pick_overlapping_stands::<E>(p1, src + 1, ts);
            match pick_overlapping::<E>(p1, src + 1, ts) {
                Err(_) => {},
                Ok(p) => {
                    assert forall|x: int| 0 <= x < p.inputs.len() implies 0 <= (
                    #[trigger] p.inputs[x]).0 < levels.len() && levels[p.inputs[x].0].contains(
                        p.inputs[x].1,
                    ) && data_blocks_of(p.inputs[x].1) is Some by {
                        if x < n {
                            assert(p.inputs[x] == p1.inputs[x]);
                            assert(levels[src][x] == ss[x]);
                        } else {
                            let k = ks[x - n];
                            assert(p.inputs[n + (x - n)] == (src + 1, ts[k]));
                            assert(levels[src + 1][k] == ts[k]);
                        }
                    }
                    assert forall|x: int, y: int|
                        0 <= x < y < p.inputs.len() implies (
                    #[trigger] p.inputs[x]).1.first_block != (
                    #[trigger] p.inputs[y]).1.first_block by {
                        if y < n {
                            assert(p.inputs[x] == p1.inputs[x]);
                            assert(p.inputs[y] == p1.inputs[y]);
                            assert(levels[src][x] == ss[x]);
                            assert(levels[src][y] == ss[y]);
                        } else {
                            let ky = ks[y - n];
                            assert(p.inputs[n + (y - n)] == (src + 1, ts[ky]));
                            assert(levels[src + 1][ky] == ts[ky]);
                            if x < n {
                                assert(p.inputs[x] == p1.inputs[x]);
                                assert(levels[src][x] == ss[x]);
                            } else {
                                let kx = ks[x - n];
                                assert(p.inputs[n + (x - n)] == (src + 1, ts[kx]));
                                assert(levels[src + 1][kx] == ts[kx]);
                                assert(kx < ky);
                            }
                        }
                    }
                    assert(ks.len() <= b) by {
                        lemma_ascending_len(ks, b);
                    }
                },
            }
        },
    }
}

/// No more target tables join than there are.
pub proof fn lemma_picked_bound<E>(src: int, ss: Seq<TabV>, ts: Seq<TabV>)
    ensures
        picked::<E>(src, ss, ts) matches Ok(p) ==> p.n_tgt <= ts.len(),
{
    let p0 = PickV {
        inputs: Seq::empty(),
        n_tgt: 0,
        first: ss[0].first_key,
        last: ss[0].last_key,
    };
    lemma_pick_all_stands::<E>(p0, ss);
    let from_src = if src == 0 {
        pick_all::<E>(p0, ss)
    } else {
        match join_check::<E>(p0, ss[0]) {
            Err(e) => Err(e),
            Ok(()) => Ok(with_input(p0, src, ss[0])),
        }
    };
    match from_src {
        Err(_) => {},
        Ok(p1) => {
            let ks = lemma_pick_overlapping_stands::<E>(p1, src + 1, ts);
            if pick_overlapping::<E>(p1, src + 1, ts) is Ok {
                lemma_ascending_len(ks, ts.len() as int);
            }
        },
    }
}

/// The picked range takes in every input's.
pub open spec fn closes(p: PickV) -> bool {
    forall|x: int|
        0 <= x < p.inputs.len() ==> lex_le(p.first, (#[trigger] p.inputs[x]).1.first_key)
            && lex_le(p.inputs[x].1.last_key, p.last)
}

/// Widening by a table keeps the range around the other inputs.
proof fn lemma_widened_closes(p: PickV, level: int, t: TabV)
    requires
        closes(p),
    ensures
        closes(widened(with_input(p, level, t), t)),
{
    let q = widened(with_input(p, level, t), t);
    lemma_lex_irreflexive(t.first_key);
    lemma_lex_irreflexive(t.last_key);
    lemma_lex_irreflexive(p.first);
    lemma_lex_irreflexive(p.last);
    lemma_lex_total(t.first_key, p.first);
    lemma_lex_total(t.last_key, p.last);
    if lex_lt(t.first_key, p.first) {
        lemma_lex_asymmetric(t.first_key, p.first);
    }
    if lex_lt(p.last, t.last_key) {
        lemma_lex_asymmetric(p.last, t.last_key);
    }
    assert forall|x: int| 0 <= x < q.inputs.len() implies lex_le(
        q.first,
        (#[trigger] q.inputs[x]).1.first_key,
    ) && lex_le(q.inputs[x].1.last_key, q.last) by {
        if x < p.inputs.len() {
            assert(q.inputs[x] == p.inputs[x]);
            lemma_lex_le_le(q.first, p.first, p.inputs[x].1.first_key);
            lemma_lex_le_le(p.inputs[x].1.last_key, p.last, q.last);
        }
    }
}

proof fn lemma_pick_all_closes<E>(p: PickV, ts: Seq<TabV>)
    requires
        closes(p),
    ensures
        pick_all::<E>(p, ts) matches Ok(q) ==> closes(q),
    decreases ts.len(),
{
    if ts.len() > 0 {
        lemma_pick_all_closes::<E>(p, ts.drop_last());
        match pick_all::<E>(p, ts.drop_last()) {
            Err(_) => {},
            Ok(q) => {
                lemma_widened_closes(q, 0, ts.last());
            },
        }
    }
}

proof fn lemma_pick_overlapping_closes<E>(p: PickV, tgt: int, ts: Seq<TabV>)
    requires
        closes(p),
    ensures
        pick_overlapping::<E>(p, tgt, ts) matches Ok(q) ==> closes(q),
    decreases ts.len(),
{
    if ts.len() > 0 {
        lemma_pick_overlapping_closes::<E>(p, tgt, ts.drop_last());
        match pick_overlapping::<E>(p, tgt, ts.drop_last()) {
            Err(_) => {},
            Ok(q) => {
                lemma_widened_closes(PickV { n_tgt: q.n_tgt + 1, ..q }, tgt, ts.last());
            },
        }
    }
}

/// The range of a job takes in every input's.
pub proof fn lemma_picked_closes<E>(src: int, ss: Seq<TabV>, ts: Seq<TabV>)
    ensures
        picked::<E>(src, ss, ts) matches Ok(p) ==> closes(p),
{
    let p0 = PickV {
        inputs: Seq::empty(),
        n_tgt: 0,
        first: ss[0].first_key,
        last: ss[0].last_key,
    };
    lemma_lex_irreflexive(ss[0].first_key);
    lemma_lex_irreflexive(ss[0].last_key);
    lemma_pick_all_closes::<E>(p0, ss);
    let from_src = if src == 0 {
        pick_all::<E>(p0, ss)
    } else {
        match join_check::<E>(p0, ss[0]) {
            Err(e) => Err(e),
            Ok(()) => Ok(with_input(p0, src, ss[0])),
        }
    };
    match from_src {
        Err(_) => {},
        Ok(p1) => {
            lemma_pick_overlapping_closes::<E>(p1, src + 1, ts);
        },
    }
}

/// Ascending numbers below `b` are at most `b` many.
proof fn lemma_ascending_len(ks: Seq<int>, b: int)
    requires
        b >= 0,
        forall|x: int| 0 <= x < ks.len() ==> 0 <= #[trigger] ks[x] < b,
        forall|x: int, y: int|
            #![trigger ks[x], ks[y]]
            0 <= x < y < ks.len() ==> ks[x] < ks[y],
    ensures
        ks.len() <= b,
    decreases ks.len(),
{
    if ks.len() > 0 {
        let d = ks.drop_last();
        let m = ks.last();
        assert forall|x: int| 0 <= x < d.len() implies 0 <= #[trigger] d[x] < m by {
            assert(ks[x] < ks[ks.len() - 1]);
        }
        assert forall|x: int, y: int|
            #![trigger d[x], d[y]]
            0 <= x < y < d.len() implies d[x] < d[y] by {
            assert(ks[x] < ks[y]);
        }
        lemma_ascending_len(d, m);
    }
}

/// The watermarks are those of `snaps`, highest first.
pub open spec fn watermarks(sorted: Seq<u64>, snaps: Seq<u64>) -> bool {
    &&& sorted.len() == snaps.len()
    &&& forall|i: int, j: int|
        #![trigger sorted[i], sorted[j]]
        0 <= i <= j < sorted.len() ==> sorted[i] >= sorted[j]
    &&& forall|i: int| 0 <= i < snaps.len() ==> sorted.contains(#[trigger] snaps[i])
    &&& forall|i: int| 0 <= i < sorted.len() ==> snaps.contains(#[trigger] sorted[i])
}

impl<
    D: BlockDevice,
    const BLOCK: usize,
    const KEY_MAX: usize,
    const VAL_MAX: usize,
    const CAP: usize,
    const ARENA: usize,
    const LEVELS: usize,
    const TABLES: usize,
    const BLOOM_BYTES: usize,
    const CACHE: usize,
> Db<D, BLOCK, KEY_MAX, VAL_MAX, CAP, ARENA, LEVELS, TABLES, BLOOM_BYTES, CACHE> {
    /// Live snapshot watermarks, sorted descending. At most
    /// [`MAX_SNAPSHOTS`] items, so insertion sort is trivially bounded.
    pub(super) fn sorted_snapshot_watermarks(&self) -> (r: ([u64; MAX_SNAPSHOTS], usize))
        requires
            self.wf(),
        ensures
            r.1 <= MAX_SNAPSHOTS,
            watermarks(r.0@.take(r.1 as int), self.snaps()),
    {
        let ghost snaps = self.snaps();
        let mut n: usize = 0;
        let mut sorted: [u64; MAX_SNAPSHOTS] = [0u64;MAX_SNAPSHOTS];
        assert(sorted@.take(0) =~= snaps.take(0));
        while n < self.n_snapshots
            invariant
                self.wf(),
                snaps == self.snaps(),
                n <= self.n_snapshots <= MAX_SNAPSHOTS,
                watermarks(sorted@.take(n as int), snaps.take(n as int)),
            decreases self.n_snapshots - n,
        {
            let s: u64 = self.snapshots[n];
            let ghost s0 = sorted@.take(n as int);
            assert(s == snaps[n as int]);
            let mut i: usize = n;
            while i > 0 && sorted[i - 1] < s
                invariant
                    i <= n < MAX_SNAPSHOTS,
                    s0.len() == n,
                    forall|k: int| 0 <= k < i ==> sorted@[k] == #[trigger] s0[k],
                    forall|k: int| i <= k < n ==> sorted@[k + 1] == #[trigger] s0[k],
                    forall|k: int| i <= k < n ==> #[trigger] s0[k] < s,
                decreases i,
            {
                sorted[i] = sorted[i - 1];
                i = i - 1;
            }
            sorted[i] = s;
            proof {
                lemma_watermark_insert(s0, sorted@.take(n + 1), snaps, n as int, i as int, s);
            }
            n = n + 1;
        }
        assert(snaps.take(n as int) =~= snaps);
        (sorted, n)
    }

    /// Reports whether a compaction output at `tgt` covering
    /// `[first, last]` is bottommost: tombstones drop only when the output
    /// reaches the bottommost level holding the merged range, because
    /// nothing below can hide an older version of a dropped key.
    pub(super) fn is_bottommost_output(
        &self,
        tgt: usize,
        first: KeyBound<KEY_MAX>,
        last: KeyBound<KEY_MAX>,
    ) -> (r: bool)
        requires
            self.wf(),
            first.wf(),
            last.wf(),
            tgt < LEVELS,
        ensures
            r == is_bottom(self.man().levels, tgt as int, first@, last@),
    {
        let ghost levels = self.man().levels;
        proof {
            self.manifest.lemma_wf();
        }
        let mut lvl: usize = tgt + 1;
        while lvl < LEVELS
            invariant
                self.wf(),
                levels == self.man().levels,
                levels.len() == LEVELS,
                first.wf(),
                last.wf(),
                tgt < lvl <= LEVELS,
                forall|l: int, i: int|
                    tgt < l < lvl && 0 <= i < levels[l].len() ==> !overlap(
                        first@,
                        last@,
                        (#[trigger] levels[l][i]).first_key,
                        levels[l][i].last_key,
                    ),
            decreases LEVELS - lvl,
        {
            let tables: &[TableRef<KEY_MAX>] = match self.manifest.level(lvl) {
                Some(ts) => ts,
                None => {
                    return true;
                },
            };
            let mut i: usize = 0;
            while i < tables.len()
                invariant
                    levels == self.man().levels,
                    levels.len() == LEVELS,
                    tgt < lvl < LEVELS,
                    first.wf(),
                    last.wf(),
                    tab_views(tables@) == levels[lvl as int],
                    refs_wf(tables@),
                    i <= tables@.len(),
                    forall|k: int|
                        0 <= k < i ==> !overlap(
                            first@,
                            last@,
                            (#[trigger] levels[lvl as int][k]).first_key,
                            levels[lvl as int][k].last_key,
                        ),
                decreases tables@.len() - i,
            {
                let t: &TableRef<KEY_MAX> = &tables[i];
                assert(tables@[i as int].wf());
                assert(tab_views(tables@)[i as int] == t@);
                if ranges_overlap(first, last, t.first_key, t.last_key) {
                    assert(levels[lvl as int][i as int] == t@);
                    return false;
                }
                i = i + 1;
            }
            lvl = lvl + 1;
        }
        true
    }

    /// Lowest sequence that a table outside the job's inputs, or the
    /// memtable, could hold for a key in `[first, last]`: the floor below
    /// which the job may drop a tombstone. Tables at every level count: a
    /// re-ingested table at L0 can be older than tombstones below it.
    pub(super) fn outside_min_seq(
        &self,
        inputs: &[Input<KEY_MAX>; COMPACTION_KMAX],
        n_inputs: usize,
        first: KeyBound<KEY_MAX>,
        last: KeyBound<KEY_MAX>,
    ) -> (r: u64)
        requires
            self.wf(),
            n_inputs <= COMPACTION_KMAX,
            first.wf(),
            last.wf(),
        ensures
            is_outside_floor(
                self.mem(),
                self.man().levels,
                inputs_of(inputs@, n_inputs as int),
                first@,
                last@,
                r,
            ),
    {
        let ghost levels = self.man().levels;
        let ghost ins = inputs_of(inputs@, n_inputs as int);
        let ghost mem = self.mem();
        proof {
            self.manifest.lemma_wf();
        }
        let mut floor: u64 = self.table.min_seq();
        let mut lvl: usize = 0;
        while lvl < LEVELS
            invariant
                self.wf(),
                levels == self.man().levels,
                levels.len() == LEVELS,
                mem == self.mem(),
                ins == inputs_of(inputs@, n_inputs as int),
                n_inputs <= COMPACTION_KMAX,
                first.wf(),
                last.wf(),
                lvl <= LEVELS,
                is_outside_floor(mem, levels.take(lvl as int), ins, first@, last@, floor),
            decreases LEVELS - lvl,
        {
            let tables: &[TableRef<KEY_MAX>] = match self.manifest.level(lvl) {
                Some(ts) => ts,
                None => {
                    assert(false);
                    return floor;
                },
            };
            let ghost floor0 = floor;
            let mut i: usize = 0;
            while i < tables.len()
                invariant
                    levels == self.man().levels,
                    levels.len() == LEVELS,
                    ins == inputs_of(inputs@, n_inputs as int),
                    n_inputs <= COMPACTION_KMAX,
                    first.wf(),
                    last.wf(),
                    lvl < LEVELS,
                    tab_views(tables@) == levels[lvl as int],
                    refs_wf(tables@),
                    i <= tables@.len(),
                    floor <= floor0,
                    forall|k: int|
                        0 <= k < i && outside(
                            ins,
                            first@,
                            last@,
                            #[trigger] levels[lvl as int][k],
                        ) ==> floor <= levels[lvl as int][k].min_seq,
                    floor == floor0 || exists|k: int|
                        0 <= k < i && outside(
                            ins,
                            first@,
                            last@,
                            #[trigger] levels[lvl as int][k],
                        ) && floor == levels[lvl as int][k].min_seq,
                decreases tables@.len() - i,
            {
                let t: &TableRef<KEY_MAX> = &tables[i];
                assert(tables@[i as int].wf());
                assert(tab_views(tables@)[i as int] == t@);
                assert(levels[lvl as int][i as int] == t@);
                if !has_input(inputs, n_inputs, t.id) && ranges_overlap(
                    first,
                    last,
                    t.first_key,
                    t.last_key,
                ) {
                    if t.min_seq < floor {
                        floor = t.min_seq;
                    }
                }
                i = i + 1;
            }
            proof {
                lemma_floor_step(mem, levels, ins, first@, last@, lvl as int, floor0, floor);
            }
            lvl = lvl + 1;
        }
        assert(levels.take(LEVELS as int) =~= levels);
        floor
    }
}

/// Whether an input has the id.
fn has_input<const KEY_MAX: usize>(
    inputs: &[Input<KEY_MAX>; COMPACTION_KMAX],
    n_inputs: usize,
    id: u32,
) -> (r: bool)
    requires
        n_inputs <= COMPACTION_KMAX,
    ensures
        r == in_job(inputs_of(inputs@, n_inputs as int), id),
{
    let ghost ins = inputs_of(inputs@, n_inputs as int);
    let mut k: usize = 0;
    while k < n_inputs
        invariant
            n_inputs <= COMPACTION_KMAX,
            ins == inputs_of(inputs@, n_inputs as int),
            k <= n_inputs,
            forall|j: int| 0 <= j < k ==> (#[trigger] ins[j]).1.id != id,
        decreases n_inputs - k,
    {
        assert(ins[k as int].1 == inputs@[k as int].tref@);
        if inputs[k].tref.id == id {
            assert(ins[k as int].1.id == id);
            return true;
        }
        k = k + 1;
    }
    false
}

/// One more level.
proof fn lemma_floor_step(
    mem: Seq<Rec>,
    levels: Seq<Seq<TabV>>,
    ins: Seq<(int, TabV)>,
    first: Seq<u8>,
    last: Seq<u8>,
    l: int,
    f0: u64,
    f1: u64,
)
    requires
        0 <= l < levels.len(),
        is_outside_floor(mem, levels.take(l), ins, first, last, f0),
        f1 <= f0,
        forall|k: int|
            0 <= k < levels[l].len() && outside(ins, first, last, #[trigger] levels[l][k]) ==> f1
                <= levels[l][k].min_seq,
        f1 == f0 || exists|k: int|
            0 <= k < levels[l].len() && outside(ins, first, last, #[trigger] levels[l][k]) && f1
                == levels[l][k].min_seq,
    ensures
        is_outside_floor(mem, levels.take(l + 1), ins, first, last, f1),
{
    let a = levels.take(l);
    let b = levels.take(l + 1);
    assert forall|x: int, i: int|
        0 <= x < b.len() && 0 <= i < b[x].len() && outside(
            ins,
            first,
            last,
            #[trigger] b[x][i],
        ) implies f1 <= b[x][i].min_seq by {
        if x < l {
            assert(a[x][i] == b[x][i]);
        } else {
            assert(levels[l][i] == b[x][i]);
        }
    }
    if f1 != f0 {
        let k = choose|k: int|
            0 <= k < levels[l].len() && outside(ins, first, last, #[trigger] levels[l][k]) && f1
                == levels[l][k].min_seq;
        assert(b[l][k] == levels[l][k]);
    } else if f0 != bottom_seq(mem) {
        let (x, i) = choose|x: int, i: int|
            0 <= x < a.len() && 0 <= i < a[x].len() && outside(
                ins,
                first,
                last,
                #[trigger] a[x][i],
            ) && f0 == a[x][i].min_seq;
        assert(b[x][i] == a[x][i]);
    }
}

/// One more watermark at its place.
proof fn lemma_watermark_insert(
    s0: Seq<u64>,
    s1: Seq<u64>,
    snaps: Seq<u64>,
    n: int,
    i: int,
    s: u64,
)
    requires
        0 <= i <= n < snaps.len(),
        watermarks(s0, snaps.take(n)),
        s1.len() == n + 1,
        s == snaps[n],
        forall|k: int| 0 <= k < i ==> s1[k] == #[trigger] s0[k],
        forall|k: int| i <= k < n ==> s1[k + 1] == #[trigger] s0[k],
        forall|k: int| i <= k < n ==> #[trigger] s0[k] < s,
        i == 0 || s0[i - 1] >= s,
        s1[i] == s,
    ensures
        watermarks(s1, snaps.take(n + 1)),
{
    let t0 = snaps.take(n);
    let t1 = snaps.take(n + 1);
    assert forall|x: int| 0 <= x < s1.len() implies #[trigger] s1[x] == (if x < i {
        s0[x]
    } else if x == i {
        s
    } else {
        s0[x - 1]
    }) by {
        if x > i {
            assert(s1[(x - 1) + 1] == s0[x - 1]);
        }
    }
    assert forall|x: int, y: int|
        #![trigger s1[x], s1[y]]
        0 <= x <= y < s1.len() implies s1[x] >= s1[y] by {
        if x < i && y == i {
            assert(s0[x] >= s0[i - 1]);
        } else if x < i && y > i {
            assert(s0[x] >= s0[y - 1]);
        } else if x < i {
            assert(s0[x] >= s0[y]);
        } else if x == i && y > i {
            assert(s0[y - 1] < s);
        } else if x > i {
            assert(s0[x - 1] >= s0[y - 1]);
        }
    }
    assert forall|k: int| 0 <= k < t1.len() implies s1.contains(#[trigger] t1[k]) by {
        if k < n {
            assert(t0[k] == t1[k]);
            assert(s0.contains(t0[k]));
            let j = choose|j: int| 0 <= j < s0.len() && s0[j] == t0[k];
            if j < i {
                assert(s1[j] == s0[j]);
            } else {
                assert(s1[j + 1] == s0[j]);
            }
        } else {
            assert(s1[i] == s);
        }
    }
    assert forall|k: int| 0 <= k < s1.len() implies t1.contains(#[trigger] s1[k]) by {
        if k == i {
            assert(t1[n] == s);
        } else {
            let x = if k < i {
                k
            } else {
                k - 1
            };
            assert(s1[k] == s0[x]);
            assert(t0.contains(s0[x]));
            let j = choose|j: int| 0 <= j < t0.len() && t0[j] == s0[x];
            assert(t1[j] == t0[j]);
        }
    }
}

} // verus!

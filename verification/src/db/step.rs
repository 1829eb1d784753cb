//! Compaction: committing a finished merge, and the bounded step.

use vstd::prelude::*;

use super::commit::next_copy;
use super::compacted::lemma_commit_tidy;
use super::compaction::{
    counts_fit, data_seals, inputs_apart, inputs_live, inputs_once, job_data, job_of, job_rdels,
    job_run, job_tab, joined_by, lemma_job_same, seal_output, without, JobV,
};
use super::flush::touches_only;
use super::place::sits;
use super::room::hint_moved;
use super::select::{in_job, inputs_of};
use super::Db;
use crate::cache::CachePort;
use crate::compact::merge::{Compaction, Input, MergeOutcome, Progress, State, COMPACTION_KMAX};
use crate::compact::rdel_merge::rdels_within;
use crate::device::{same_blocks, same_outside, synced, BlockDevice};
use crate::error::Error;
use crate::manifest::{holds_copy, index_of_id, Manifest, TableRef};
use crate::manifest_format::{total_tables, ManV, TabV};
use crate::slots::SlotMap;
use crate::sstable::format::{is_data_block, rdel_block, RdelV};
use crate::sstable::table::RunV;
use crate::sstable::writer::{data_image, data_imaged, law_push_all, sealed_writer, WriterV};
use crate::wal::seq_max;

verus! {

/// The table that a job publishes: none when the merge kept nothing.
pub open spec fn job_output(w: WriterV, rs: Seq<RdelV>, id: u32, block: int) -> Option<TabV> {
    if w.all().len() > 0 || rs.len() > 0 {
        Some(job_tab(w, rs, id, block))
    } else {
        None
    }
}

/// The levels with a job's inputs replaced by its output.
pub open spec fn compacted(
    levels: Seq<Seq<TabV>>,
    j: JobV,
    out: Option<TabV>,
) -> Seq<Seq<TabV>> {
    match out {
        Some(t) => joined_by(without(levels, j.inputs), j.target, t),
        None => without(levels, j.inputs),
    }
}

/// An input sits in slot `i`.
pub open spec fn input_slot(slots: SlotMap, inputs: Seq<(int, TabV)>, i: u32) -> bool {
    exists|x: int| 0 <= x < inputs.len() && sits(slots, (#[trigger] inputs[x]).1, i)
}

/// Stages the removal of a job's inputs.
fn stage_removals<E, const LEVELS: usize, const TABLES: usize, const KEY_MAX: usize>(
    staged: &mut Manifest<LEVELS, TABLES, KEY_MAX>,
    inputs: &[Input<KEY_MAX>; COMPACTION_KMAX],
    n: usize,
) -> (r: Result<(), Error<E>>)
    requires
        old(staged).wf(),
        n <= COMPACTION_KMAX,
        inputs_live(old(staged)@.levels, inputs_of(inputs@, n as int)),
    ensures
        r is Ok,
        final(staged).wf(),
        final(staged)@ == (ManV {
            levels: without(old(staged)@.levels, inputs_of(inputs@, n as int)),
            ..old(staged)@
        }),
{
    let ghost v = staged@;
    let ghost all = inputs_of(inputs@, n as int);
    let mut i: usize = 0;
    proof {
        staged.lemma_wf();
        assert(inputs_of(inputs@, 0) =~= Seq::<(int, TabV)>::empty());
    }
    while i < n
        invariant
            i <= n,
            n <= COMPACTION_KMAX,
            staged.wf(),
            v == old(staged)@,
            v.levels.len() == LEVELS,
            all == inputs_of(inputs@, n as int),
            inputs_live(v.levels, all),
            staged@ == (ManV { levels: without(v.levels, inputs_of(inputs@, i as int)), ..v }),
        decreases n - i,
    {
        let ghost now = inputs_of(inputs@, i + 1);
        proof {
            assert(now.drop_last() =~= inputs_of(inputs@, i as int));
            assert(all[i as int] == now.last());
            staged.lemma_wf();
        }
        match staged.remove_table_from_level::<E>(inputs[i].level, inputs[i].tref.id) {
            Ok(_) => {},
            Err(e) => {
                return Err(e);
            },
        }
        i = i + 1;
    }
    Ok(())
}

/// Live inputs leave room for the output.
pub(super) proof fn lemma_without_total(levels: Seq<Seq<TabV>>, inputs: Seq<(int, TabV)>)
    requires
        inputs_live(levels, inputs),
    ensures
        without(levels, inputs).len() == levels.len(),
        total_tables(without(levels, inputs)) <= total_tables(levels),
        inputs.len() > 0 ==> total_tables(without(levels, inputs)) < total_tables(levels),
    decreases inputs.len(),
{
    if inputs.len() > 0 {
        let d = inputs.drop_last();
        assert forall|i: int| 0 <= i < d.len() implies 0 <= (#[trigger] d[i]).0 < levels.len()
            && levels[d[i].0].contains(d[i].1) by {
            assert(d[i] == inputs[i]);
        }
        lemma_without_total(levels, d);
        let ls = without(levels, d);
        let (l, t) = inputs.last();
        assert(0 <= inputs[inputs.len() - 1].0 < levels.len());
        let p = index_of_id(ls[l], t.id);
        crate::manifest::lemma_index_of_id(ls[l], t.id);
        if p < ls[l].len() {
            crate::manifest::lemma_total_update(ls, l, ls[l].remove(p));
        }
        if d.len() == 0 {
            assert(levels[inputs[0].0].contains(inputs[0].1));
            let k = choose|k: int| 0 <= k < ls[l].len() && ls[l][k] == t;
            assert(ls[l][k].id == t.id);
        }
    }
}

impl<
    D: BlockDevice,
    const BLOCK: usize,
    const KEY_MAX: usize,
    const VAL_MAX: usize,
    const CAP: usize,
    const ARENA: usize,
    const LEVELS: usize,
    const TABLES: usize,
    const BLOOM_BYTES: usize,
    const CACHE: usize,
> Db<D, BLOCK, KEY_MAX, VAL_MAX, CAP, ARENA, LEVELS, TABLES, BLOOM_BYTES, CACHE> {
    /// The table that a job whose sealed data is `w` publishes.
    pub open spec fn job_result(&self, j: JobV, w: WriterV) -> Option<TabV> {
        job_output(
            w,
            job_rdels(self.content(), j, KEY_MAX).rs,
            self.man().next_table_id,
            BLOCK as int,
        )
    }

    /// The manifest after a job that publishes `out`.
    pub open spec fn job_man(&self, j: JobV, out: Option<TabV>) -> ManV {
        let m = self.man();
        next_copy(
            ManV {
                levels: compacted(m.levels, j, out),
                next_table_id: if out is Some {
                    (m.next_table_id + 1) as u32
                } else {
                    m.next_table_id
                },
                seq_high: seq_max(self.issued_seq(), m.seq_high),
                ..m
            },
        )
    }

    /// Why the commit of a job whose sealed data is `w` fails.
    pub open spec fn commit_fails(&self, j: JobV, w: WriterV) -> bool {
        let rs = job_rdels(self.content(), j, KEY_MAX).rs;
        ||| self.job_result(j, w) is Some && (!counts_fit(w, rs, BLOCK as int)
            || self.man().next_table_id == u32::MAX)
        ||| self.man().seq == u64::MAX
    }

    /// Only the device's blocks in the job's slot and the next manifest
    /// copy differ, and the job and its reservations.
    pub open spec fn worked_on(&self, o: &Self, slot: u32) -> bool {
        &&& self.mem() == o.mem()
        &&& self.man() == o.man()
        &&& self.issued_seq() == o.issued_seq()
        &&& self.snaps() == o.snaps()
        &&& self.is_opened() == o.is_opened()
        &&& self.config() == o.config()
        &&& self.wal_next() == o.wal_next()
        &&& self.images() == o.images()
        &&& self.slot_map().same_layout(&o.slot_map())
        &&& forall|i: u32| #[trigger] self.slot_map().used(i) == o.slot_map().used(i)
        &&& touches_only(
            o.content(),
            self.content(),
            o.slot_map().base_of(slot as int),
            o.slot_map().base_of(slot + 1),
            o.copy_at(),
            o.copy_at() + Self::stride(),
        )
    }

    /// What the commit of job `j` does, whose sealed data is `w`: the
    /// inputs give way to the output, in one manifest commit.
    pub open spec fn committed(a: &Self, b: &Self, j: JobV, w: WriterV) -> bool {
        let out = a.job_result(j, w);
        let rs = job_rdels(a.content(), j, KEY_MAX).rs;
        let run = job_run(w, rs, BLOCK as int);
        &&& !a.commit_fails(j, w)
        &&& b.man() == a.job_man(j, out)
        &&& b.mem() == a.mem()
        &&& b.issued_seq() == a.issued_seq()
        &&& b.snaps() == a.snaps()
        &&& b.is_opened()
        &&& b.config() == a.config()
        &&& b.wal_next() == a.wal_next()
        &&& !b.job().0
        &&& b.slot_map().same_layout(&a.slot_map())
        &&& forall|i: u32| #[trigger]
            b.slot_map().used(i) == ((a.slot_map().used(i) && !input_slot(
                a.slot_map(),
                j.inputs,
                i,
            )) || (out is Some && i == j.slot))
        &&& forall|i: u32| !#[trigger] b.slot_map().reserved(i)
        &&& forall|k: (u32, u64)| #[trigger]
            b.images().dom().contains(k) ==> a.images().dom().contains(k) && b.images()[k]
                == a.images()[k] && !in_job(j.inputs, k.0)
        &&& forall|k: (u32, u64)| #[trigger]
            a.images().dom().contains(k) && !in_job(j.inputs, k.0) ==> b.images().dom().contains(k)
        &&& touches_only(
            a.content(),
            b.content(),
            a.slot_map().base_of(j.slot as int),
            a.slot_map().base_of(j.slot + 1),
            a.copy_at(),
            a.copy_at() + Self::stride(),
        )
        &&& holds_copy(b.content(), b.man(), a.copy_at(), BLOCK as nat)
        &&& b.kept() == b.content()
        &&& a.tidy() ==> b.tidy()
        &&& out is Some ==> {
            &&& run.wf(BLOCK as int, BLOOM_BYTES as int)
            &&& run.on(b.content(), BLOCK as int, BLOOM_BYTES as int)
            &&& data_imaged(b.content(), run.base, run.groups, true, BLOCK as int)
            &&& rdels_within(rs, KEY_MAX)
        }
    }

    /// A commit keeps live tables in slots and under ids of their own.
    proof fn lemma_keeps_tidy(a: &Self, mid: &Self, b: &Self, j: JobV, out: Option<TabV>)
        requires
            a.slot_map().wf(),
            mid.slot_map().wf(),
            inputs_live(a.man().levels, j.inputs),
            inputs_once(j.inputs),
            0 <= j.target < a.man().levels.len(),
            b.man() == a.job_man(j, out),
            mid.slot_map().same_layout(&a.slot_map()),
            b.slot_map().same_layout(&mid.slot_map()),
            forall|i: u32| #[trigger]
                mid.slot_map().used(i) == (a.slot_map().used(i) && !input_slot(
                    a.slot_map(),
                    j.inputs,
                    i,
                )),
            forall|i: u32| #[trigger]
                b.slot_map().used(i) == (mid.slot_map().used(i) || (out is Some && i == j.slot)),
            !a.slot_map().used(j.slot),
            out matches Some(t) ==> sits(a.slot_map(), t, j.slot) && t.id == a.man().next_table_id
                && t.id < u32::MAX,
        ensures
            a.tidy() ==> b.tidy(),
    {
        reveal(Db::tidy);
        if a.tidy() {
            lemma_commit_tidy(
                a.slot_map(),
                mid.slot_map(),
                b.slot_map(),
                a.man().levels,
                j,
                out,
                a.man().next_table_id,
            );
        }
    }

    /// Frees the slots of retired tables and drops their cached blocks.
    fn retire_inputs(&mut self, inputs: &[Input<KEY_MAX>; COMPACTION_KMAX], n: usize)
        requires
            n <= COMPACTION_KMAX,
            old(self).slots.wf(),
            old(self).cache.port_wf(),
        ensures
            *final(self) == (Db {
                slots: final(self).slots,
                cache: final(self).cache,
                ..*old(self)
            }),
            final(self).slots.wf(),
            final(self).cache.port_wf(),
            final(self).slots.same_layout(&old(self).slots),
            final(self).slots.next_hint() == old(self).slots.next_hint(),
            ({
                let ts = inputs_of(inputs@, n as int);
                &&& forall|i: u32| #[trigger]
                    final(self).slots.used(i) == (old(self).slots.used(i) && !input_slot(
                        old(self).slots,
                        ts,
                        i,
                    ))
                &&& forall|i: u32| #[trigger]
                    final(self).slots.reserved(i) == old(self).slots.reserved(i)
                &&& forall|k: (u32, u64)| #[trigger]
                    final(self).images().dom().contains(k) ==> old(self).images().dom().contains(k)
                        && final(self).images()[k] == old(self).images()[k] && !in_job(ts, k.0)
                &&& forall|k: (u32, u64)| #[trigger]
                    old(self).images().dom().contains(k) && !in_job(ts, k.0)
                        ==> final(self).images().dom().contains(k)
            }),
    {
        let ghost slots0 = self.slots;
        let ghost images0 = self.images();
        let mut x: usize = 0;
        while x < n
            invariant
                x <= n,
                n <= COMPACTION_KMAX,
                slots0 == old(self).slots,
                images0 == old(self).images(),
                *self == (Db { slots: self.slots, cache: self.cache, ..*old(self) }),
                self.slots.wf(),
                self.cache.port_wf(),
                self.slots.same_layout(&slots0),
                self.slots.next_hint() == slots0.next_hint(),
                forall|i: u32| #[trigger]
                    self.slots.used(i) == (slots0.used(i) && !input_slot(
                        slots0,
                        inputs_of(inputs@, x as int),
                        i,
                    )),
                forall|i: u32| #[trigger] self.slots.reserved(i) == slots0.reserved(i),
                forall|k: (u32, u64)| #[trigger]
                    self.images().dom().contains(k) ==> images0.dom().contains(k)
                        && self.images()[k] == images0[k] && !in_job(
                        inputs_of(inputs@, x as int),
                        k.0,
                    ),
                forall|k: (u32, u64)| #[trigger]
                    images0.dom().contains(k) && !in_job(inputs_of(inputs@, x as int), k.0)
                        ==> self.images().dom().contains(k),
            decreases n - x,
        {
            let ghost was = inputs_of(inputs@, x as int);
            let ghost now = inputs_of(inputs@, x + 1);
            let ghost slots1 = self.slots;
            let ghost images1 = self.images();
            // Drop the retired table's cache entries so their slots serve
            // the hot set (hygiene: ids never repeat, so stale entries
            // could never be read).
            CachePort::invalidate_table(&mut self.cache, inputs[x].tref.id);
            let t: &TableRef<KEY_MAX> = &inputs[x].tref;
            let slot: Option<u32> = self.slots.slot_of(t.first_block, t.block_count as u64);
            match slot {
                Some(s) => {
                    self.slots.free(s);
                },
                None => {},
            }
            proof {
                assert forall|y: int| 0 <= y < was.len() implies was[y] == #[trigger] now[y] by {}
                assert(now[x as int].1 == t@);
                assert forall|i: u32| #[trigger] self.slots.used(i) == (slots0.used(i)
                    && !input_slot(slots0, now, i)) by {
                    assert(slots1.used(i) == (slots0.used(i) && !input_slot(slots0, was, i)));
                    super::place::lemma_sits_same(slots1, slots0, t@, i);
                    if input_slot(slots0, was, i) {
                        let y = choose|y: int|
                            0 <= y < was.len() && sits(slots0, (#[trigger] was[y]).1, i);
                        assert(sits(slots0, now[y].1, i));
                    }
                    if sits(slots0, t@, i) {
                        assert(sits(slots0, now[x as int].1, i));
                        assert(slots1.holds(i, t.first_block, t.block_count as u64));
                        assert(slot is Some);
                        slots1.law_one_slot(i, slot->0, t.first_block, t.block_count as u64);
                    }
                    if input_slot(slots0, now, i) {
                        let y = choose|y: int|
                            0 <= y < now.len() && sits(slots0, (#[trigger] now[y]).1, i);
                        if y < x {
                            assert(sits(slots0, was[y].1, i));
                        }
                    }
                }
                assert forall|i: u32| #[trigger]
                    self.slots.reserved(i) == slots0.reserved(i) by {
                    assert(slots1.reserved(i) == slots0.reserved(i));
                }
                assert forall|k: (u32, u64)| #[trigger]
                    self.images().dom().contains(k) implies images0.dom().contains(k)
                    && self.images()[k] == images0[k] && !in_job(now, k.0) by {
                    assert(images1.dom().contains(k));
                    if in_job(now, k.0) {
                        let y = choose|y: int|
                            0 <= y < now.len() && (#[trigger] now[y]).1.id == k.0;
                        if y < x {
                            assert(was[y].1.id == k.0);
                        } else {
                            assert(!self.images().dom().contains((t.id, k.1)));
                        }
                    }
                }
                assert forall|k: (u32, u64)| #[trigger]
                    images0.dom().contains(k) && !in_job(
                        now,
                        k.0,
                    ) implies self.images().dom().contains(k) by {
                    if in_job(was, k.0) {
                        let y = choose|y: int|
                            0 <= y < was.len() && (#[trigger] was[y]).1.id == k.0;
                        assert(now[y].1.id == k.0);
                    }
                    assert(images1.dom().contains(k));
                    assert(now[x as int].1.id == t.id);
                }
            }
            x = x + 1;
        }
    }

    /// Commits the finished merge: seals the output table (unless the merge
    /// produced no entries), swaps the input tables for it in a staged
    /// manifest, and claims the output slot after the commit lands.
    #[verifier::rlimit(40)]
    fn compact_commit(
        &mut self,
        c: &mut Compaction<BLOCK, KEY_MAX, VAL_MAX, BLOOM_BYTES>,
    ) -> (r: Result<(), Error<D::Error>>)
        requires
            old(self).wf(),
            old(self).is_opened(),
            old(self).job().0,
            old(self).job_ready(old(c)),
        ensures
            final(self).wf(),
            final(c).wf(),
            final(c).purge_before == old(c).purge_before,
            final(self).slot_map().next_hint() == old(self).slot_map().next_hint(),
            match r {
                Ok(()) => {
                    &&& final(c).state == State::Idle
                    &&& data_seals(old(c).writer@, BLOCK as int)
                    &&& Self::committed(
                        old(self),
                        final(self),
                        job_of(*old(c)),
                        sealed_writer(old(c).writer@),
                    )
                },
                Err(e) => {
                    &&& e is Device || (e == Error::<D::Error>::NoSpace && (!data_seals(
                        old(c).writer@,
                        BLOCK as int,
                    ) || old(self).commit_fails(job_of(*old(c)), sealed_writer(old(c).writer@))))
                    &&& final(self).worked_on(old(self), job_of(*old(c)).slot)
                    &&& final(self).job() == old(self).job()
                },
            },
    {
        let ghost a = *self;
        let ghost j = job_of(*c);
        let ghost w0 = c.writer@;
        let ghost w = sealed_writer(w0);
        let ghost block = BLOCK as int;
        let ghost rs = job_rdels(self.content(), j, KEY_MAX).rs;
        let ghost levels = self.man().levels;
        let ghost lo = self.slot_map().base_of(j.slot as int);
        let ghost hi = self.slot_map().base_of(j.slot + 1);
        proof {
            self.lemma_wf();
            self.lemma_copy_at();
            self.slots.law_slots_tile(j.slot as int, j.slot + 1);
            self.slots.law_slots_tile(j.slot as int, self.slots.slot_count() as int);
            if j.slot > 0 {
                self.slots.law_slots_tile(0, j.slot as int);
            }
            self.slots.lemma_counts();
        }
        // Seal the output table first: the meta write flushes, so the
        // blocks are durable before the manifest makes them visible.
        let id: u32 = self.manifest.next_table_id();
        proof {
            assert(inputs_apart(
                j.inputs,
                c.out_base as int,
                c.out_base + c.writer@.limit + c.rdel_blocks + 3,
            )) by {
                assert forall|i: int| 0 <= i < j.inputs.len() implies (
                #[trigger] j.inputs[i]).1.first_block + j.inputs[i].1.block_count <= c.out_base
                    || c.out_base + c.writer@.limit + c.rdel_blocks + 3
                    <= j.inputs[i].1.first_block by {}
            }
            assert forall|i: int| 0 <= i < c.n_inputs implies (
            #[trigger] c.inputs@[i]).tref@.first_block + c.inputs@[i].tref@.block_count
                <= u64::MAX by {
                assert(j.inputs[i].1 == c.inputs@[i].tref@);
            }
        }
        let sealed = seal_output(self.wal.device_mut(), c, id);
        let ghost mid = *self;
        proof {
            Self::lemma_open_kept(&a, self);
        }
        let out: Option<TableRef<KEY_MAX>> = match sealed {
            Ok(o) => o,
            Err(e) => {
                assert(self.worked_on(&a, j.slot));
                return Err(e);
            },
        };
        let mut staged: Manifest<LEVELS, TABLES, KEY_MAX> = self.manifest.duplicate();
        if out.is_some() {
            match staged.alloc_table_id::<D::Error>() {
                Ok(_) => {},
                Err(e) => {
                    assert(self.worked_on(&a, j.slot));
                    return Err(e);
                },
            }
        }
        match stage_removals::<D::Error, LEVELS, TABLES, KEY_MAX>(
            &mut staged,
            &c.inputs,
            c.n_inputs,
        ) {
            Ok(()) => {},
            Err(e) => {
                return Err(e);
            },
        }
        proof {
            self.manifest.lemma_wf();
            lemma_without_total(levels, j.inputs);
        }
        match out {
            Some(t) => {
                match staged.add_table_to_level::<D::Error>(c.target_level, t) {
                    Ok(()) => {},
                    Err(e) => {
                        return Err(e);
                    },
                }
            },
            None => {},
        }
        // Compaction may drop the tables holding the newest sequences
        // (bottommost tombstones): persist the counter so it never
        // regresses.
        staged.raise_seq_high(self.next_seq);
        let ghost res = a.job_result(j, w);
        assert(next_copy(staged@) == a.job_man(j, res));
        match self.commit_manifest(staged) {
            Ok(()) => {},
            Err(e) => {
                proof {
                    Self::lemma_open_kept(&a, self);
                    assert(self.worked_on(&a, j.slot));
                }
                return Err(e);
            },
        }
        let ghost done = *self;
        // Commit point passed: settle the slots. The retired inputs' slots
        // are free, strictly after the visibility point, and the output's
        // reservation becomes a used slot (or is released when the merge
        // emitted nothing).
        self.retire_inputs(&c.inputs, c.n_inputs);
        let ghost retired = *self;
        proof {
            assert(inputs_of(c.inputs@, c.n_inputs as int) == j.inputs);
        }
        let slot: u32 = c.out_slot as u32;
        if out.is_some() {
            self.slots.commit(slot);
        } else {
            self.slots.release(slot);
        }
        self.job_active = false;
        self.job_inputs = 0;
        c.reset();
        proof {
            assert(self.snaps() == a.snaps());
            assert(self.slots.same_layout(&a.slots));
            assert(done.images() == a.images());
            assert forall|k: (u32, u64)| #[trigger]
                self.images().dom().contains(k) implies a.images().dom().contains(k)
                && self.images()[k] == a.images()[k] && !in_job(j.inputs, k.0) by {
                assert(retired.images().dom().contains(k));
            }
            assert forall|k: (u32, u64)| #[trigger]
                a.images().dom().contains(k) && !in_job(
                    j.inputs,
                    k.0,
                ) implies self.images().dom().contains(k) by {
                assert(done.images().dom().contains(k));
                assert(retired.images().dom().contains(k));
            }
            assert forall|i: u32| !#[trigger] self.slots.reserved(i) by {
                assert(a.slots.reserved(i) ==> i == slot);
            }
            if res is Some {
                assert(sits(a.slot_map(), res->0, j.slot));
            }
            Self::lemma_keeps_tidy(&a, &retired, self, j, res);
            if res is Some {
                let run = job_run(w, rs, block);
                lemma_run_on_kept(
                    run,
                    mid.content(),
                    self.content(),
                    block,
                    BLOOM_BYTES as int,
                );
            }
            assert(self.open_wf()) by {
                assert(self.slots_laid()) by {
                    assert(self.slots.base_of(0) == a.slots.base_of(0));
                    assert(self.slots.base_of(LEVELS * TABLES) == a.slots.base_of(
                        LEVELS * TABLES,
                    ));
                }
            }
        }
        Ok(())
    }

    /// The same database without a job in flight.
    pub open spec fn idled(&self, o: &Self) -> bool {
        &&& self.gave_up(o)
        &&& self.slot_map().next_hint() == o.slot_map().next_hint()
    }

    /// The same database without a job in flight, but for where the search
    /// for a free slot begins.
    pub open spec fn gave_up(&self, o: &Self) -> bool {
        &&& self.but_job(o)
        &&& self.images() == o.images()
        &&& !self.job().0
        &&& self.slot_map().same_layout(&o.slot_map())
        &&& forall|i: u32| #[trigger] self.slot_map().used(i) == o.slot_map().used(i)
        &&& forall|i: u32| !#[trigger] self.slot_map().reserved(i)
    }

    /// What one step of job `j` does, which wrote `n` blocks before: it
    /// writes one more block, or commits the job, or gives it up.
    pub open spec fn stepped_on(
        a: &Self,
        b: &Self,
        c: &Compaction<BLOCK, KEY_MAX, VAL_MAX, BLOOM_BYTES>,
        j: JobV,
        n: nat,
        r: Result<Progress, Error<D::Error>>,
    ) -> bool {
        let data = job_data::<D::Error>(a.content(), j, BLOCK as int, KEY_MAX, VAL_MAX);
        match r {
            Ok(Progress::More) => {
                &&& b.worked_on(a, j.slot)
                &&& b.synced_since(
                    a,
                    a.slot_map().base_of(j.slot as int),
                    a.slot_map().base_of(j.slot + 1),
                )
                &&& b.job_current(c)
                &&& b.job_held(c)
                &&& job_of(*c) == j
                &&& c.writer@.groups.len() == n + 1
            },
            Ok(Progress::Done) => {
                &&& c.state == State::Idle
                &&& data matches Ok(w) && Self::committed(a, b, j, w)
            },
            Err(e) => {
                &&& c.state == State::Idle
                &&& !b.job().0
                &&& b.worked_on(a, j.slot)
                &&& e is Device || match data {
                    Err(x) => e == x,
                    Ok(w) => e == Error::<D::Error>::NoSpace && a.commit_fails(j, w),
                }
            },
        }
    }

    /// What a compaction step without a job in flight does, from `m`: it
    /// selects one and takes its first step, if a level is full.
    pub open spec fn stepped_anew(
        m: &Self,
        b: &Self,
        c: &Compaction<BLOCK, KEY_MAX, VAL_MAX, BLOOM_BYTES>,
        purge_before: u64,
        r: Result<Progress, Error<D::Error>>,
    ) -> bool {
        if m.job_source() is None {
            &&& r == Ok::<Progress, Error<D::Error>>(Progress::Done)
            &&& b.idled(m)
            &&& c.state == State::Idle
        } else {
            ||| {
                &&& r matches Err(e) && (e is Device || m.select_fails(e))
                &&& b.gave_up(m)
                &&& hint_moved(m.slot_map(), b.slot_map())
                &&& c.state == State::Idle
            }
            ||| exists|j: JobV| #[trigger]
                m.selects(j) && j.keep.purge_before == purge_before && Self::stepped_on(
                    m,
                    b,
                    c,
                    j,
                    0,
                    r,
                ) && b.slot_map().next_hint() == (j.slot + 1) % (m.slot_map().slot_count() as int)
        }
    }

    /// What a compaction step does.
    pub open spec fn stepped(
        a: &Self,
        b: &Self,
        c0: &Compaction<BLOCK, KEY_MAX, VAL_MAX, BLOOM_BYTES>,
        c1: &Compaction<BLOCK, KEY_MAX, VAL_MAX, BLOOM_BYTES>,
        r: Result<Progress, Error<D::Error>>,
    ) -> bool {
        if !a.is_opened() {
            r == Err::<Progress, Error<D::Error>>(Error::NotOpen) && *b == *a && *c1 == *c0
        } else if a.job_current(c0) {
            &&& Self::stepped_on(a, b, c1, job_of(*c0), c0.writer@.groups.len(), r)
            &&& b.slot_map().next_hint() == a.slot_map().next_hint()
        } else {
            exists|m: Self| #[trigger]
                m.idled(a) && m.wf() && Self::stepped_anew(&m, b, c1, c0.purge_before, r)
        }
    }

    /// A commit from the same state is the same.
    proof fn lemma_committed_from(a: &Self, m: &Self, b: &Self, j: JobV, w: WriterV)
        requires
            Self::committed(m, b, j, w),
            m.but_job(a),
            m.images() == a.images(),
            m.slot_map() == a.slot_map(),
        ensures
            Self::committed(a, b, j, w),
    {
        if a.tidy() {
            Self::lemma_tidy_same(a, m);
        }
        assert(m.copy_at() == a.copy_at());
        assert(m.job_result(j, w) == a.job_result(j, w));
    }

    /// A step of the job in flight.
    #[verifier::rlimit(40)]
    fn merge_on(&mut self, c: &mut Compaction<BLOCK, KEY_MAX, VAL_MAX, BLOOM_BYTES>) -> (r: Result<
        Progress,
        Error<D::Error>,
    >)
        requires
            old(self).wf(),
            old(self).is_opened(),
            old(self).job_current(old(c)),
            old(self).job_held(old(c)),
        ensures
            final(self).wf(),
            final(c).wf(),
            final(c).purge_before == old(c).purge_before,
            final(self).slot_map().next_hint() == old(self).slot_map().next_hint(),
            r == Ok::<Progress, Error<D::Error>>(Progress::More) ==> final(self).job_slots() == old(
                self,
            ).job_slots(),
            Self::stepped_on(
                old(self),
                final(self),
                final(c),
                job_of(*old(c)),
                old(c).writer@.groups.len(),
                r,
            ),
    {
        let ghost a = *self;
        let ghost c0 = *c;
        let ghost j = job_of(*c);
        let ghost content = self.content();
        let ghost lo = self.slot_map().base_of(j.slot as int);
        let ghost hi = self.slot_map().base_of(j.slot + 1);
        proof {
            self.lemma_wf();
            self.slots.law_slots_tile(j.slot as int, j.slot + 1);
            c.writer.lemma_wf();
            law_push_all::<D::Error>(c.writer@, c.pending(content), BLOCK as int, KEY_MAX);
        }
        let stepped = c.merge_step(self.wal.device_mut());
        let ghost mid = *self;
        proof {
            assert forall|x: u64| !(lo <= x < hi) && a.synced(x) implies #[trigger] self.synced(
                x,
            ) by {
                assert(synced(&a.wal.dev(), x));
                assert(synced(&self.wal.dev(), x));
            }
            Self::lemma_open_kept(&a, self);
            assert(self.wf());
            assert(same_outside(content, self.content(), lo, hi));
            lemma_job_same(content, self.content(), j, KEY_MAX, VAL_MAX, lo, hi);
            assert(self.worked_on(&a, j.slot));
        }
        let outcome: MergeOutcome = match stepped {
            Ok(o) => o,
            Err(e) => {
                self.abort_job();
                c.reset();
                return Err(e);
            },
        };
        match outcome {
            MergeOutcome::More => {
                proof {
                    assert(job_of(*c) == j);
                    assert(self.job_ready(c));
                    assert(self.job_held(c));
                }
                Ok(Progress::More)
            },
            MergeOutcome::Exhausted => {
                proof {
                    assert(job_of(*c) == j);
                    assert(self.content() == content);
                    assert(self.job_ready(c));
                }
                let ghost w1 = c.writer@;
                match self.compact_commit(c) {
                    Ok(()) => {
                        proof {
                            Self::lemma_committed_from(
                                &a,
                                &mid,
                                self,
                                j,
                                sealed_writer(w1),
                            );
                        }
                        Ok(Progress::Done)
                    },
                    Err(e) => {
                        self.abort_job();
                        c.reset();
                        Err(e)
                    },
                }
            },
        }
    }

    /// Runs one bounded compaction step using the caller's `scratch`.
    ///
    /// When some level is full, the first call selects a job for the
    /// deepest full level (all of L0, or the oldest table of a deeper
    /// level) plus the overlapping tables of the level below, and merges
    /// them one output block per call ([`Progress::More`]); the call that
    /// exhausts the merge seals the output table and commits the manifest
    /// atomically, returning [`Progress::Done`]. With no full level this
    /// is a no-op returning [`Progress::Done`]. Note `Done` is returned in
    /// both cases, so stepping while the result is `More` drives exactly
    /// one job; loop on [`compaction_pending`](Db::compaction_pending) to
    /// drain every pending job.
    ///
    /// The scratch is reusable across jobs and droppable mid-job: partial
    /// output is invisible until the manifest commit, and its reserved
    /// slot is released when the next `compact_step` (with any scratch)
    /// abandons the stale job. One job runs at a time; a scratch whose job
    /// was abandoned (another scratch started one, or an archive or ingest
    /// aborted it) resets itself on its next step.
    ///
    /// The live tables must sit in slots of their own under ids of their
    /// own, as every commit leaves them.
    ///
    /// # Errors
    ///
    /// [`Error::NotOpen`] before [`open`](Db::open). [`Error::NoSpace`]
    /// when the job would exceed [`COMPACTION_KMAX`] inputs, no output slot
    /// is free (or the slot cannot fit the merge), or the target level
    /// cannot absorb the output table (a full bottommost level the merge
    /// does not drain into, raised at select time, before any merge I/O);
    /// [`Error::CorruptBlock`] on a torn input table (compaction never
    /// silently drops entries); [`Error::Device`] on I/O failure. A failed
    /// step resets the scratch; the device manifest is untouched, so the
    /// job can be reselected later.
    pub fn compact_step(
        &mut self,
        scratch: &mut Compaction<BLOCK, KEY_MAX, VAL_MAX, BLOOM_BYTES>,
    ) -> (r: Result<Progress, Error<D::Error>>)
        requires
            old(self).wf(),
            old(scratch).wf(),
            old(self).is_opened() ==> if old(self).job_current(old(scratch)) {
                old(self).job_held(old(scratch))
            } else {
                old(self).seated()
            },
        ensures
            final(self).wf(),
            final(scratch).wf(),
            final(scratch).purge_before == old(scratch).purge_before,
            old(self).tidy() ==> final(self).tidy(),
            old(self).seated() && r != Ok::<Progress, Error<D::Error>>(Progress::Done)
                ==> final(self).seated(),
            old(self).sound() ==> {
                &&& final(self).sound()
                &&& r != Ok::<Progress, Error<D::Error>>(Progress::Done) ==> final(self).reads_as(
                    old(self),
                )
            },
            Self::stepped(old(self), final(self), old(scratch), final(scratch), r),
            r == Ok::<Progress, Error<D::Error>>(Progress::More) ==> if old(self).job_current(
                old(scratch),
            ) {
                final(self).job_slots() == old(self).job_slots()
            } else {
                final(self).job_marks(job_of(*final(scratch)).inputs)
            },
            old(self).sound() && old(self).traced() && (old(self).job_current(old(scratch))
                ==> old(self).job_safe(old(scratch))) ==> {
                &&& final(self).traced()
                &&& r == Ok::<Progress, Error<D::Error>>(Progress::Done) ==> final(self).views_as(
                    old(self),
                    old(self).purge_line(old(scratch)),
                )
                &&& r == Ok::<Progress, Error<D::Error>>(Progress::More) ==> final(self).job_safe(
                    final(scratch),
                )
            },
    {
        match self.ensure_open() {
            Ok(()) => {},
            Err(e) => {
                return Err(e);
            },
        }
        // A scratch whose job is no longer the active one (another scratch
        // selected a job, or the job was aborted) must not touch the
        // device: its reservation is gone.
        if scratch.state != State::Idle && (!self.job_active || scratch.job_gen != self.job_gen) {
            scratch.reset();
        }
        if scratch.state == State::Idle {
            let r = self.start_job(scratch);
            proof {
                if old(self).sound() && old(self).traced() {
                    Self::law_step_keeps_views(old(self), self, old(scratch), scratch, r);
                }
            }
            r
        } else {
            let ghost a = *self;
            let ghost c0 = *scratch;
            let r = self.merge_on(scratch);
            proof {
                if a.sound() && a.traced() && a.job_safe(&c0) {
                    Self::law_step_keeps_views(&a, self, &c0, scratch, r);
                }
                Self::lemma_stepped_tidy(
                    &a,
                    self,
                    scratch,
                    job_of(c0),
                    c0.writer@.groups.len(),
                    r,
                );
                if a.sound() {
                    Self::lemma_stepped_sound(
                        &a,
                        self,
                        scratch,
                        job_of(c0),
                        c0.writer@.groups.len(),
                        r,
                    );
                }
            }
            r
        }
    }

    /// Selects a job and takes its first step.
    #[verifier::rlimit(60)]
    fn start_job(
        &mut self,
        scratch: &mut Compaction<BLOCK, KEY_MAX, VAL_MAX, BLOOM_BYTES>,
    ) -> (r: Result<Progress, Error<D::Error>>)
        requires
            old(self).wf(),
            old(self).is_opened(),
            old(self).seated(),
            old(scratch).wf(),
            old(scratch).state == State::Idle,
        ensures
            final(self).wf(),
            final(scratch).wf(),
            final(scratch).purge_before == old(scratch).purge_before,
            old(self).tidy() ==> final(self).tidy(),
            r != Ok::<Progress, Error<D::Error>>(Progress::Done) ==> final(self).seated(),
            r == Ok::<Progress, Error<D::Error>>(Progress::More) ==> final(self).job_marks(
                job_of(*final(scratch)).inputs,
            ),
            old(self).sound() ==> {
                &&& final(self).sound()
                &&& r != Ok::<Progress, Error<D::Error>>(Progress::Done) ==> final(self).reads_as(
                    old(self),
                )
            },
            exists|m: Self| #[trigger]
                m.idled(old(self)) && m.wf() && Self::stepped_anew(
                    &m,
                    final(self),
                    final(scratch),
                    old(scratch).purge_before,
                    r,
                ),
    {
        // One job at a time: a job some other scratch left behind is
        // abandoned.
        let ghost a = *self;
        self.abort_job();
        let ghost m = *self;
        proof {
            assert(m.idled(&a));
            Self::lemma_seated_same(&a, &m);
            if a.tidy() {
                Self::lemma_tidy_same(&a, &m);
            }
        }
        let selected = self.compact_select(scratch);
        proof {
            Self::lemma_seated_same(&m, self);
            if a.tidy() {
                Self::lemma_tidy_same(&m, self);
            }
        }
        match selected {
            Ok(true) => {},
            Ok(false) => {
                assert(Self::stepped_anew(
                    &m,
                    self,
                    scratch,
                    old(scratch).purge_before,
                    Ok(Progress::Done),
                ));
                return Ok(Progress::Done);
            },
            Err(e) => {
                let ghost sel = *self;
                self.abort_job();
                scratch.reset();
                proof {
                    assert forall|i: u32| #[trigger]
                        self.slot_map().used(i) == m.slot_map().used(i) by {
                        assert(sel.slot_map().used(i) == m.slot_map().used(i));
                    }
                    assert(self.gave_up(&m));
                    if m.sound() {
                        Self::lemma_idled_reads(&m, self);
                    }
                    assert(Self::stepped_anew(
                        &m,
                        self,
                        scratch,
                        old(scratch).purge_before,
                        Err(e),
                    ));
                }
                return Err(e);
            },
        }
        let ghost sel = *self;
        let ghost j = job_of(*scratch);
        let ghost n = scratch.writer@.groups.len();
        let r = self.merge_on(scratch);
        proof {
            Self::lemma_stepped_tidy(&sel, self, scratch, j, 0, r);
            Self::lemma_stepped_from(&m, &sel, self, scratch, j, r);
            assert(m.selects(j));
            if r == Ok::<Progress, Error<D::Error>>(Progress::More) {
                assert(self.job_marks(j.inputs)) by {
                    assert forall|s: u32|
                        s < self.slot_map().slot_count() implies #[trigger] crate::slots::bit_set(
                        self.job_slots(),
                        s,
                    ) == exists|x: int|
                        0 <= x < j.inputs.len() && super::place::sits(
                            self.slot_map(),
                            (#[trigger] j.inputs[x]).1,
                            s,
                        ) by {
                        assert(crate::slots::bit_set(sel.job_slots(), s) == exists|x: int|
                            0 <= x < j.inputs.len() && super::place::sits(
                                sel.slot_map(),
                                (#[trigger] j.inputs[x]).1,
                                s,
                            ));
                        assert forall|x: int| 0 <= x < j.inputs.len() implies super::place::sits(
                            self.slot_map(),
                            (#[trigger] j.inputs[x]).1,
                            s,
                        ) == super::place::sits(sel.slot_map(), j.inputs[x].1, s) by {}
                    }
                }
            }
            assert(Self::stepped_anew(&m, self, scratch, old(scratch).purge_before, r));
            if a.sound() {
                m.lemma_selects_fits(j);
                Self::lemma_stepped_sound(&m, self, scratch, j, 0, r);
            }
        }
        r
    }

    /// A step keeps every live table in a slot and under an id of its own.
    proof fn lemma_stepped_tidy(
        a: &Self,
        b: &Self,
        c: &Compaction<BLOCK, KEY_MAX, VAL_MAX, BLOOM_BYTES>,
        j: JobV,
        n: nat,
        r: Result<Progress, Error<D::Error>>,
    )
        requires
            Self::stepped_on(a, b, c, j, n, r),
        ensures
            a.tidy() ==> b.tidy(),
            a.seated() && r != Ok::<Progress, Error<D::Error>>(Progress::Done) ==> b.seated(),
    {
        if b.worked_on(a, j.slot) {
            if a.tidy() {
                Self::lemma_tidy_same(a, b);
            }
            if a.seated() {
                Self::lemma_seated_same(a, b);
            }
        }
    }

    /// Giving up a job keeps the live tables and every read.
    pub(super) proof fn lemma_idled_reads(a: &Self, b: &Self)
        requires
            a.sound(),
            b.gave_up(a),
        ensures
            b.sound(),
            b.reads_as(a),
    {
        Self::lemma_tidy_same(a, b);
        assert forall|key: Seq<u8>, max_seq: u64, now: u64| #[trigger]
            b.value_at(key, max_seq, now) == a.value_at(key, max_seq, now) by {}
    }

    /// A step keeps the live tables intact; until the commit, every read
    /// stays.
    pub(super) proof fn lemma_stepped_sound(
        a: &Self,
        b: &Self,
        c: &Compaction<BLOCK, KEY_MAX, VAL_MAX, BLOOM_BYTES>,
        j: JobV,
        n: nat,
        r: Result<Progress, Error<D::Error>>,
    )
        requires
            a.wf(),
            a.sound(),
            a.job_fits(j),
            Self::stepped_on(a, b, c, j, n, r),
        ensures
            b.sound(),
            r != Ok::<Progress, Error<D::Error>>(Progress::Done) ==> b.reads_as(a),
    {
        if r == Ok::<Progress, Error<D::Error>>(Progress::Done) {
            let w = job_data::<D::Error>(
                a.content(),
                j,
                BLOCK as int,
                KEY_MAX,
                VAL_MAX,
            )->Ok_0;
            Self::lemma_commit_sound(a, b, j, w);
        } else {
            Self::lemma_aside_reads(a, b, j.slot);
        }
    }

    /// A step from the selected job is one from before the selection.
    proof fn lemma_stepped_from(
        m: &Self,
        sel: &Self,
        b: &Self,
        c: &Compaction<BLOCK, KEY_MAX, VAL_MAX, BLOOM_BYTES>,
        j: JobV,
        r: Result<Progress, Error<D::Error>>,
    )
        requires
            sel.but_job(m),
            sel.images() == m.images(),
            sel.slot_map().same_layout(&m.slot_map()),
            forall|i: u32| #[trigger] sel.slot_map().used(i) == m.slot_map().used(i),
            Self::stepped_on(sel, b, c, j, 0, r),
        ensures
            Self::stepped_on(m, b, c, j, 0, r),
    {
        if m.tidy() {
            Self::lemma_tidy_same(m, sel);
        }
        assert(sel.copy_at() == m.copy_at());
        assert forall|i: int| #[trigger] sel.slot_map().base_of(i) == m.slot_map().base_of(i) by {}
        if b.worked_on(sel, j.slot) {
            assert forall|i: u32| #[trigger]
                b.slot_map().used(i) == m.slot_map().used(i) by {
                assert(b.slot_map().used(i) == sel.slot_map().used(i));
            }
            assert(b.worked_on(m, j.slot));
        }
        if r is Ok && r->Ok_0 is Done {
            let data = job_data::<D::Error>(m.content(), j, BLOCK as int, KEY_MAX, VAL_MAX);
            let w = data->Ok_0;
            assert(m.job_result(j, w) == sel.job_result(j, w));
            assert forall|i: u32| #[trigger]
                b.slot_map().used(i) == ((m.slot_map().used(i) && !input_slot(
                    m.slot_map(),
                    j.inputs,
                    i,
                )) || (m.job_result(j, w) is Some && i == j.slot)) by {
                assert(sel.slot_map().used(i) == m.slot_map().used(i));
                assert(input_slot(m.slot_map(), j.inputs, i) == input_slot(
                    sel.slot_map(),
                    j.inputs,
                    i,
                )) by {
                    assert forall|x: int| 0 <= x < j.inputs.len() implies sits(
                        m.slot_map(),
                        (#[trigger] j.inputs[x]).1,
                        i,
                    ) == sits(sel.slot_map(), j.inputs[x].1, i) by {
                        super::place::lemma_sits_same(sel.slot_map(), m.slot_map(), j.inputs[x].1, i);
                    }
                }
            }
            assert(Self::committed(m, b, j, w));
        }
    }
}

/// A table stays on the device where its blocks stay.
proof fn lemma_run_on_kept(
    run: RunV,
    c0: Map<u64, Seq<u8>>,
    c1: Map<u64, Seq<u8>>,
    block: int,
    bloom: int,
)
    requires
        run.wf(block, bloom),
        run.on(c0, block, bloom),
        data_imaged(c0, run.base, run.groups, true, block),
        same_blocks(c0, c1, run.base as int, run.footer_at() + 1),
    ensures
        run.on(c1, block, bloom),
        data_imaged(c1, run.base, run.groups, true, block),
{
    assert forall|b: int| 0 <= b < run.groups.len() implies c1[(run.base + b) as u64]
        == data_image(#[trigger] run.groups[b], true, block) by {
        assert(c0[(run.base + b) as u64] == c1[(run.base + b) as u64]);
    }
    assert forall|b: int| 0 <= b < run.groups.len() implies is_data_block(
        c1[(run.base + b) as u64],
        #[trigger] run.groups[b],
        block,
    ) by {
        assert(c0[(run.base + b) as u64] == c1[(run.base + b) as u64]);
    }
    assert forall|x: int| 0 <= x < run.rgroups.len() implies c1[(run.rdel_at() + x) as u64]
        == rdel_block(#[trigger] run.rgroups[x], block) by {
        assert(c0[(run.rdel_at() + x) as u64] == c1[(run.rdel_at() + x) as u64]);
    }
    assert(c0[run.bloom_at() as u64] == c1[run.bloom_at() as u64]);
    assert(c0[(run.bloom_at() + 1) as u64] == c1[(run.bloom_at() + 1) as u64]);
    assert(c0[run.footer_at() as u64] == c1[run.footer_at() as u64]);
}

} // verus!

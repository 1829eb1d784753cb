//! When an archival is owed success: what may keep a table from leaving.

use vstd::prelude::*;

use super::compact_reads::lemma_acc_best;
use super::flush::lemma_lex_lt_or;
use super::place::{at, lemma_read_order};
use super::view::{
    acc_over, is_run_of, mem_acc, read_order, rdel_inside, rec_inside, tab_rdels, tab_recs, tab_run,
    tab_sound,
};
use super::Db;
use crate::bytes::{lemma_lex_le_le, lex_le, lex_lt};
use crate::compact::sift::{first_at, lemma_first_at};
use crate::device::BlockDevice;
use crate::manifest::lemma_index_of_id;
use crate::manifest_format::TabV;
use crate::memtable::is_hit;

verus! {

impl<
    D: BlockDevice,
    const BLOCK: usize,
    const KEY_MAX: usize,
    const VAL_MAX: usize,
    const CAP: usize,
    const ARENA: usize,
    const LEVELS: usize,
    const TABLES: usize,
    const BLOOM_BYTES: usize,
    const CACHE: usize,
> Db<D, BLOCK, KEY_MAX, VAL_MAX, CAP, ARENA, LEVELS, TABLES, BLOOM_BYTES, CACHE> {
    /// A value that is read comes from the memtable or from a table that
    /// was not skipped, whose bounds hold its key.
    pub proof fn law_read_has_source(&self, key: Seq<u8>, view: u64, skip: Option<u32>) -> (r: (
        int,
        int,
    ))
        requires
            self.wf(),
            self.sound(),
            self.seen(key, view, skip) is Some,
        ensures
            ({
                ||| 0 <= r.1 < self.mem().len() && r.0 < 0 && self.mem()[r.1].key == key
                    && !self.mem()[r.1].tombstone && !self.mem()[r.1].range_del
                    && self.mem()[r.1].seq <= view && self.seen(key, view, skip) == Some(
                    self.mem()[r.1].val,
                )
                ||| {
                    &&& 0 <= r.0 < self.man().levels.len()
                    &&& 0 <= r.1 < self.man().levels[r.0].len()
                    &&& skip != Some(self.man().levels[r.0][r.1].id)
                    &&& lex_le(self.man().levels[r.0][r.1].first_key, key)
                    &&& lex_le(key, self.man().levels[r.0][r.1].last_key)
                }
            }),
    {
        let d = Self::dims();
        let c = self.content();
        let ro = read_order(self.man().levels);
        let a0 = mem_acc(self.mem(), key, view);
        lemma_acc_best(a0, c, ro, d, key, view, skip);
        let best = acc_over(a0, c, ro, d, key, view, skip).best;
        if best == a0.best {
            lemma_first_at(self.mem(), key, view);
            let i = choose|i: int| #[trigger]
                is_hit(self.mem(), key, view, i) && Some(self.mem()[i]) == best;
            (-1, i)
        } else {
            let k = choose|k: int|
                0 <= k < ro.len() && skip != Some((#[trigger] ro[k]).id) && first_at(
                    tab_recs(c, ro[k], d),
                    key,
                    view,
                ) == best;
            let (l, y) = lemma_read_order(self.man().levels, k);
            assert(tab_sound(c, self.man().levels[l][y], d));
            let run = tab_run(c, ro[k], d);
            assert(is_run_of(run, c, ro[k], d));
            let recs = run.recs();
            lemma_first_at(recs, key, view);
            let i = choose|i: int| #[trigger]
                is_hit(recs, key, view, i) && Some(recs[i]) == best;
            assert(rec_inside(ro[k], recs[i]));
            (l, y)
        }
    }

    /// A table may leave unless one of three things holds it: a deletion of
    /// a key that would read as a value again in some live view, a range
    /// tombstone whose range meets the bounds of another live table, or a
    /// range tombstone over a value in the memtable that would come back.
    pub proof fn law_archive_free_to_leave(&self, t: TabV)
        requires
            forall|i: int, v: u64|
                #![trigger tab_recs(self.content(), t, Self::dims())[i], self.is_view(v)]
                {
                    let e = tab_recs(self.content(), t, Self::dims())[i];
                    0 <= i < tab_recs(self.content(), t, Self::dims()).len() && e.tombstone
                        && e.seq <= v && (v == u64::MAX || self.snaps().contains(v)) ==> self.seen(
                        e.key,
                        v,
                        None,
                    ) is Some || self.seen(e.key, v, Some(t.id)) is None
                },
            forall|j: int, l: int, i: int|
                #![trigger tab_rdels(self.content(), t, Self::dims())[j], self.man().levels[l][i]]
                {
                    let r = tab_rdels(self.content(), t, Self::dims())[j];
                    let u = self.man().levels[l][i];
                    0 <= j < tab_rdels(self.content(), t, Self::dims()).len() && 0 <= l
                        < self.man().levels.len() && 0 <= i < self.man().levels[l].len() && u.id
                        != t.id ==> lex_lt(u.last_key, r.start) || lex_lt(r.end, u.first_key)
                },
            forall|j: int, i: int, v: u64|
                #![trigger tab_rdels(self.content(), t, Self::dims())[j], self.mem()[i], self.is_view(v)]
                {
                    let r = tab_rdels(self.content(), t, Self::dims())[j];
                    let e = self.mem()[i];
                    0 <= j < tab_rdels(self.content(), t, Self::dims()).len() && 0 <= i
                        < self.mem().len() && !e.range_del && !e.tombstone && lex_le(
                        r.start,
                        e.key,
                    ) && lex_lt(e.key, r.end) && r.seq <= v && (v == u64::MAX
                        || self.snaps().contains(v)) ==> self.seen(e.key, v, None) is Some
                        || self.seen(e.key, v, Some(t.id)) is None
                },
        ensures
            !self.would_resurrect(t),
    {
        let rs = tab_rdels(self.content(), t, Self::dims());
        let recs = tab_recs(self.content(), t, Self::dims());
        if self.point_revives(t) {
            let i = choose|i: int|
                0 <= i < recs.len() && (#[trigger] recs[i]).tombstone && self.flips_in_view(
                    recs[i].key,
                    recs[i].seq,
                    t.id,
                );
            let v = choose|v: u64| #[trigger]
                self.is_view(v) && recs[i].seq <= v && self.flips(recs[i].key, v, t.id);
        }
        if self.some_revives(t.id, rs) {
            let j = choose|j: int| 0 <= j < rs.len() && self.rdel_revives(t.id, #[trigger] rs[j]);
            if self.mem_revives(t.id, rs[j]) {
                let mem = self.mem();
                let i = choose|i: int|
                    0 <= i < mem.len() && !(#[trigger] mem[i]).range_del && !mem[i].tombstone
                        && lex_le(rs[j].start, mem[i].key) && lex_lt(mem[i].key, rs[j].end)
                        && self.flips_in_view(mem[i].key, rs[j].seq, t.id);
                let v = choose|v: u64| #[trigger]
                    self.is_view(v) && rs[j].seq <= v && self.flips(mem[i].key, v, t.id);
            }
        }
    }

    /// A table apart from all other data may leave: no other live table's
    /// bounds meet its own, and the memtable holds no value within them. In
    /// particular the only table of a handle with an empty memtable may.
    pub proof fn law_lone_table_leaves(&self, l0: int, i0: int)
        requires
            self.wf(),
            self.is_opened(),
            self.sound(),
            0 <= l0 < self.man().levels.len(),
            0 <= i0 < self.man().levels[l0].len(),
            forall|l: int, i: int|
                0 <= l < self.man().levels.len() && 0 <= i < self.man().levels[l].len() && (
                #[trigger] self.man().levels[l][i]).id != self.man().levels[l0][i0].id ==> lex_lt(
                    self.man().levels[l][i].last_key,
                    self.man().levels[l0][i0].first_key,
                ) || lex_lt(
                    self.man().levels[l0][i0].last_key,
                    self.man().levels[l][i].first_key,
                ),
            forall|i: int|
                0 <= i < self.mem().len() ==> (#[trigger] self.mem()[i]).tombstone
                    || self.mem()[i].range_del || lex_lt(
                    self.mem()[i].key,
                    self.man().levels[l0][i0].first_key,
                ) || lex_lt(self.man().levels[l0][i0].last_key, self.mem()[i].key),
        ensures
            !self.would_resurrect(self.man().levels[l0][i0]),
    {
        let t = self.man().levels[l0][i0];
        let d = Self::dims();
        let c = self.content();
        assert(at(self.man().levels, l0, i0));
        assert(tab_sound(c, self.man().levels[l0][i0], d));
        let run = tab_run(c, t, d);
        assert(is_run_of(run, c, t, d));
        let recs = tab_recs(c, t, d);
        let rs = tab_rdels(c, t, d);
        assert forall|i: int, v: u64|
            0 <= i < recs.len() implies #[trigger] self.seen(
            recs[i].key,
            v,
            Some(t.id),
        ) is None by {
            if self.seen(recs[i].key, v, Some(t.id)) is Some {
                assert(rec_inside(t, run.recs()[i]));
                let key = recs[i].key;
                let (l, y) = self.law_read_has_source(key, v, Some(t.id));
                if l >= 0 {
                    let u = self.man().levels[l][y];
                    if lex_lt(u.last_key, t.first_key) {
                        lemma_lex_le_le(t.first_key, key, u.last_key);
                    } else {
                        lemma_lex_le_le(u.first_key, key, t.last_key);
                    }
                }
            }
        }
        assert forall|j: int| 0 <= j < rs.len() implies rdel_inside(t, #[trigger] rs[j]) by {
            assert(rdel_inside(t, run.rdels()[j]));
        }
        assert forall|j: int, l: int, i: int|
            #![trigger rs[j], self.man().levels[l][i]]
            0 <= j < rs.len() && at(self.man().levels, l, i) && self.man().levels[l][i].id
                != t.id implies lex_lt(self.man().levels[l][i].last_key, rs[j].start) || lex_lt(
            rs[j].end,
            self.man().levels[l][i].first_key,
        ) by {
            let u = self.man().levels[l][i];
            if lex_le(rs[j].start, u.last_key) && lex_le(u.first_key, rs[j].end) {
                lemma_lex_le_le(t.first_key, rs[j].start, u.last_key);
                lemma_lex_le_le(u.first_key, rs[j].end, t.last_key);
            }
        }
        assert forall|j: int, i: int|
            #![trigger rs[j], self.mem()[i]]
            0 <= j < rs.len() && 0 <= i < self.mem().len() && !self.mem()[i].range_del
                && !self.mem()[i].tombstone implies !(lex_le(rs[j].start, self.mem()[i].key)
            && lex_lt(self.mem()[i].key, rs[j].end)) by {
            let k = self.mem()[i].key;
            if lex_le(rs[j].start, k) && lex_lt(k, rs[j].end) {
                lemma_lex_lt_or(k, rs[j].end);
                lemma_lex_le_le(t.first_key, rs[j].start, k);
                lemma_lex_le_le(k, rs[j].end, t.last_key);
            }
        }
        self.law_archive_free_to_leave(t);
    }

    /// An archival finds its table exactly when the level holds one with
    /// that id, and then it is that one.
    pub proof fn law_archive_finds(&self, level: int, id: u32)
        requires
            self.wf(),
            self.is_opened(),
        ensures
            match self.archive_at(level, id) {
                Some(i) => {
                    &&& 0 <= level < LEVELS
                    &&& 0 <= i < self.man().levels[level].len()
                    &&& self.man().levels[level][i].id == id
                },
                None => 0 <= level < LEVELS ==> forall|i: int|
                    0 <= i < self.man().levels[level].len() ==> (
                    #[trigger] self.man().levels[level][i]).id != id,
            },
    {
        self.lemma_wf();
        if 0 <= level < LEVELS {
            lemma_index_of_id(self.man().levels[level], id);
        }
    }

    /// An archival that commits drops that table and no other: its level is
    /// one shorter, with the order of the rest kept, and the other levels
    /// are the same.
    pub proof fn law_archive_drops_one(
        a: &Self,
        b: &Self,
        level: int,
        i: int,
        r: Result<bool, crate::error::Error<D::Error>>,
    )
        requires
            a.wf(),
            a.is_opened(),
            0 <= level < LEVELS,
            0 <= i < a.man().levels[level].len(),
            Self::archived(a, b, level, i, r),
            a.man().seq < u64::MAX,
        ensures
            match r {
                Ok(gone) => {
                    &&& gone
                    &&& b.man().levels.len() == LEVELS
                    &&& b.man().levels[level].len() == a.man().levels[level].len() - 1
                    &&& forall|k: int|
                        0 <= k < i ==> #[trigger] b.man().levels[level][k]
                            == a.man().levels[level][k]
                    &&& forall|k: int|
                        i < k < a.man().levels[level].len() ==> b.man().levels[level][k - 1]
                            == #[trigger] a.man().levels[level][k]
                    &&& forall|l: int|
                        0 <= l < LEVELS && l != level ==> #[trigger] b.man().levels[l]
                            == a.man().levels[l]
                    &&& b.man().seq == a.man().seq + 1
                    &&& b.man().next_table_id == a.man().next_table_id
                    &&& b.man().flushed_seq == a.man().flushed_seq
                    &&& b.man().wal_head == a.man().wal_head
                    &&& b.mem() == a.mem()
                },
                Err(e) => e is Device && b.man() == a.man() && b.mem() == a.mem(),
            },
    {
        a.lemma_wf();
    }

    /// A job in flight outlasts the archival of a table that it does not
    /// merge, and ends with that of one that it does.
    pub proof fn law_job_outlasts(
        a: &Self,
        b: &Self,
        level: int,
        i: int,
        r: Result<bool, crate::error::Error<D::Error>>,
        inputs: Seq<(int, TabV)>,
    )
        requires
            a.wf(),
            a.is_opened(),
            a.tidy(),
            0 <= level < LEVELS,
            0 <= i < a.man().levels[level].len(),
            Self::archived(a, b, level, i, r),
            a.job().0,
            a.job_marks(inputs),
            forall|x: int|
                0 <= x < inputs.len() ==> 0 <= (#[trigger] inputs[x]).0 < LEVELS
                    && a.man().levels[inputs[x].0].contains(inputs[x].1),
        ensures
            b.job().0 <==> forall|x: int|
                0 <= x < inputs.len() ==> (#[trigger] inputs[x]).1 != a.man().levels[level][i],
            b.job().0 ==> b.job_marks(inputs),
    {
        reveal(Db::tidy);
        a.lemma_wf();
        let levels = a.man().levels;
        let slots = a.slot_map();
        let t = levels[level][i];
        assert(at(levels, level, i));
        assert(super::place::housed(slots, levels[level][i]));
        let s = choose|s: u32| #[trigger] super::place::sits(slots, t, s) && slots.used(s);
        assert(crate::slots::bit_set(a.job_slots(), s) == exists|x: int|
            0 <= x < inputs.len() && super::place::sits(slots, (#[trigger] inputs[x]).1, s));
        if a.job_takes(t) {
            let q = choose|q: u32| #[trigger]
                super::place::sits(slots, t, q) && crate::slots::bit_set(a.job_slots(), q);
            slots.law_one_slot(q, s, t.first_block, t.block_count as u64);
            let x = choose|x: int|
                0 <= x < inputs.len() && super::place::sits(slots, (#[trigger] inputs[x]).1, s);
            let (l, u) = inputs[x];
            let k = levels[l].index_of(u);
            assert(at(levels, l, k) && super::place::sits(slots, levels[l][k], s));
            assert(super::place::sits(slots, levels[level][i], s));
            assert(u == t);
        }
        if exists|x: int| 0 <= x < inputs.len() && (#[trigger] inputs[x]).1 == t {
            let x = choose|x: int| 0 <= x < inputs.len() && (#[trigger] inputs[x]).1 == t;
            assert(super::place::sits(slots, inputs[x].1, s));
            assert(crate::slots::bit_set(a.job_slots(), s));
            assert(a.job_takes(t));
        }
        if b.job().0 {
            assert forall|q: u32|
                q < b.slot_map().slot_count() implies #[trigger] crate::slots::bit_set(
                b.job_slots(),
                q,
            ) == exists|x: int|
                0 <= x < inputs.len() && super::place::sits(
                    b.slot_map(),
                    (#[trigger] inputs[x]).1,
                    q,
                ) by {
                assert(crate::slots::bit_set(a.job_slots(), q) == exists|x: int|
                    0 <= x < inputs.len() && super::place::sits(slots, (#[trigger] inputs[x]).1, q));
                assert forall|x: int| 0 <= x < inputs.len() implies super::place::sits(
                    b.slot_map(),
                    (#[trigger] inputs[x]).1,
                    q,
                ) == super::place::sits(slots, inputs[x].1, q) by {}
            }
        }
    }
}

} // verus!

//! What a read returns, from the versions and range tombstones stored.

use vstd::prelude::*;

use super::compact_reads::{lemma_acc_best, lemma_acc_cover, lemma_order_has};
use super::place::{at, lemma_read_order};
use super::view::{
    acc_over, is_run_of, lemma_rdels_of_at, lemma_rdels_of_from, mem_acc, read_order, tab_rdels,
    tab_recs, tab_run, tab_sound,
};
use super::Db;
use crate::bytes::{lex_le, lex_lt};
use crate::compact::rdel_merge::{cover_of, law_cover_has_source, law_cover_is_newest};
use crate::compact::sift::{first_at, lemma_first_at};
use crate::device::BlockDevice;
use crate::memtable::{is_hit, visible_version, Rec};
use crate::sstable::capacity::rdels_of;

verus! {

/// The first visible version of a source is no older than any other there.
proof fn lemma_first_newest(es: Seq<Rec>, key: Seq<u8>, max_seq: u64, g: int)
    requires
        crate::memtable::runs_newest_first(es),
        visible_version(es, key, max_seq, g),
    ensures
        first_at(es, key, max_seq) matches Some(x) && x.seq >= es[g].seq,
{
    lemma_first_at(es, key, max_seq);
    let i = choose|i: int| #[trigger]
        is_hit(es, key, max_seq, i) && Some(es[i]) == first_at(es, key, max_seq);
    crate::memtable::law_hit_is_newest(es, key, max_seq, i, g);
}

impl<
    D: BlockDevice,
    const BLOCK: usize,
    const KEY_MAX: usize,
    const VAL_MAX: usize,
    const CAP: usize,
    const ARENA: usize,
    const LEVELS: usize,
    const TABLES: usize,
    const BLOOM_BYTES: usize,
    const CACHE: usize,
> Db<D, BLOCK, KEY_MAX, VAL_MAX, CAP, ARENA, LEVELS, TABLES, BLOOM_BYTES, CACHE> {
    /// Entry `g` of the memtable, for a negative level, or of table `i` of
    /// level `l`.
    pub open spec fn entry_at(&self, l: int, i: int, g: int) -> Rec {
        if l < 0 {
            self.mem()[g]
        } else {
            tab_recs(self.content(), self.man().levels[l][i], Self::dims())[g]
        }
    }

    /// There is such an entry.
    pub open spec fn entry_is(&self, l: int, i: int, g: int) -> bool {
        if l < 0 {
            0 <= g < self.mem().len()
        } else {
            &&& 0 <= l < self.man().levels.len()
            &&& 0 <= i < self.man().levels[l].len()
            &&& 0 <= g < tab_recs(self.content(), self.man().levels[l][i], Self::dims()).len()
        }
    }

    /// The version that a read settles on is stored: in the memtable or in
    /// a table.
    proof fn lemma_best_stored(&self, key: Seq<u8>, max_seq: u64) -> (r: (int, int, int))
        requires
            self.wf(),
            self.sound(),
            acc_over(
                mem_acc(self.mem(), key, max_seq),
                self.content(),
                read_order(self.man().levels),
                Self::dims(),
                key,
                max_seq,
                None,
            ).best is Some,
        ensures
            self.entry_is(r.0, r.1, r.2),
            self.entry_at(r.0, r.1, r.2).key == key,
            !self.entry_at(r.0, r.1, r.2).range_del,
            self.entry_at(r.0, r.1, r.2).seq <= max_seq,
            acc_over(
                mem_acc(self.mem(), key, max_seq),
                self.content(),
                read_order(self.man().levels),
                Self::dims(),
                key,
                max_seq,
                None,
            ).best == Some(self.entry_at(r.0, r.1, r.2)),
    {
        let d = Self::dims();
        let c = self.content();
        let ro = read_order(self.man().levels);
        let a0 = mem_acc(self.mem(), key, max_seq);
        lemma_acc_best(a0, c, ro, d, key, max_seq, None);
        let best = acc_over(a0, c, ro, d, key, max_seq, None).best;
        if best == a0.best {
            lemma_first_at(self.mem(), key, max_seq);
            let i = choose|i: int| #[trigger]
                is_hit(self.mem(), key, max_seq, i) && Some(self.mem()[i]) == best;
            (-1, 0, i)
        } else {
            let k = choose|k: int|
                0 <= k < ro.len() && None::<u32> != Some((#[trigger] ro[k]).id) && first_at(
                    tab_recs(c, ro[k], d),
                    key,
                    max_seq,
                ) == best;
            let (l, y) = lemma_read_order(self.man().levels, k);
            let recs = tab_recs(c, ro[k], d);
            lemma_first_at(recs, key, max_seq);
            let g = choose|g: int| #[trigger]
                is_hit(recs, key, max_seq, g) && Some(recs[g]) == best;
            (l, y, g)
        }
    }

    /// A key without a version in view reads as missing.
    pub proof fn law_nothing_stored_reads_none(&self, key: Seq<u8>, max_seq: u64, now: u64)
        requires
            self.wf(),
            self.sound(),
            forall|l: int, i: int, g: int|
                #![trigger self.entry_at(l, i, g)]
                self.entry_is(l, i, g) && self.entry_at(l, i, g).key == key && !self.entry_at(
                    l,
                    i,
                    g,
                ).range_del ==> self.entry_at(l, i, g).seq > max_seq,
        ensures
            self.value_at(key, max_seq, now) is None,
    {
        let best = acc_over(
            mem_acc(self.mem(), key, max_seq),
            self.content(),
            read_order(self.man().levels),
            Self::dims(),
            key,
            max_seq,
            None,
        ).best;
        if best is Some {
            let (l, i, g) = self.lemma_best_stored(key, max_seq);
            assert(self.entry_at(l, i, g).seq <= max_seq);
        }
    }

    /// A read returns the newest version in view: its value, unless it is a
    /// deletion or has expired, and unless a newer range tombstone in view
    /// holds the key.
    #[verifier::rlimit(40)]
    pub proof fn law_read_is_newest(
        &self,
        key: Seq<u8>,
        max_seq: u64,
        now: u64,
        l0: int,
        i0: int,
        g0: int,
    )
        requires
            self.wf(),
            self.sound(),
            self.entry_is(l0, i0, g0),
            self.entry_at(l0, i0, g0).key == key,
            !self.entry_at(l0, i0, g0).range_del,
            1 <= self.entry_at(l0, i0, g0).seq <= max_seq,
            forall|l: int, i: int, g: int|
                #![trigger self.entry_at(l, i, g)]
                self.entry_is(l, i, g) && self.entry_at(l, i, g).key == key && !self.entry_at(
                    l,
                    i,
                    g,
                ).range_del && self.entry_at(l, i, g).seq <= max_seq ==> self.entry_at(l, i, g).seq
                    < self.entry_at(l0, i0, g0).seq || self.entry_at(l, i, g) == self.entry_at(
                    l0,
                    i0,
                    g0,
                ),
        ensures
            ({
                let e = self.entry_at(l0, i0, g0);
                &&& e.tombstone || (e.expire_at != 0 && e.expire_at <= now) ==> self.value_at(
                    key,
                    max_seq,
                    now,
                ) is None
                &&& (exists|k: int|
                    0 <= k < self.mem().len() && (#[trigger] self.mem()[k]).range_del
                        && self.mem()[k].seq <= max_seq && self.mem()[k].seq > e.seq && lex_le(
                        self.mem()[k].key,
                        key,
                    ) && lex_lt(key, self.mem()[k].val)) ==> self.value_at(key, max_seq, now)
                    is None
                &&& (exists|l: int, i: int, j: int|
                    {
                        let q = #[trigger] tab_rdels(
                            self.content(),
                            self.man().levels[l][i],
                            Self::dims(),
                        )[j];
                        0 <= l < self.man().levels.len() && 0 <= i < self.man().levels[l].len() && 0
                            <= j < tab_rdels(
                            self.content(),
                            self.man().levels[l][i],
                            Self::dims(),
                        ).len() && q.seq <= max_seq && q.seq > e.seq && lex_le(q.start, key)
                            && lex_lt(key, q.end)
                    }) ==> self.value_at(key, max_seq, now) is None
                &&& self.value_at(key, max_seq, now) matches Some(v) ==> v == e.val
                &&& self.value_at(key, max_seq, now) is None ==> {
                    ||| e.tombstone
                    ||| e.expire_at != 0 && e.expire_at <= now
                    ||| exists|k: int|
                        0 <= k < self.mem().len() && (#[trigger] self.mem()[k]).range_del
                            && e.seq < self.mem()[k].seq <= max_seq && lex_le(
                            self.mem()[k].key,
                            key,
                        ) && lex_lt(key, self.mem()[k].val)
                    ||| exists|l: int, i: int, j: int|
                        {
                            let q = #[trigger] tab_rdels(
                                self.content(),
                                self.man().levels[l][i],
                                Self::dims(),
                            )[j];
                            0 <= l < self.man().levels.len() && 0 <= i
                                < self.man().levels[l].len() && 0 <= j < tab_rdels(
                                self.content(),
                                self.man().levels[l][i],
                                Self::dims(),
                            ).len() && e.seq < q.seq <= max_seq && lex_le(q.start, key) && lex_lt(
                                key,
                                q.end,
                            )
                        }
                }
            }),
    {
        let d = Self::dims();
        let c = self.content();
        let levels = self.man().levels;
        let ro = read_order(levels);
        let mem = self.mem();
        let a0 = mem_acc(mem, key, max_seq);
        let acc = acc_over(a0, c, ro, d, key, max_seq, None);
        let e = self.entry_at(l0, i0, g0);
        lemma_acc_best(a0, c, ro, d, key, max_seq, None);
        lemma_acc_cover(a0, c, ro, d, key, max_seq, None);
        // The best version is this one.
        assert(acc.best == Some(e)) by {
            if l0 < 0 {
                lemma_first_newest(mem, key, max_seq, g0);
            } else {
                let t = levels[l0][i0];
                assert(at(levels, l0, i0));
                let k = lemma_order_has(levels, l0, i0);
                assert(tab_sound(c, levels[l0][i0], d));
                let run = tab_run(c, t, d);
                assert(is_run_of(run, c, t, d));
                lemma_first_newest(tab_recs(c, t, d), key, max_seq, g0);
                assert(ro[k] == t);
                assert(None::<u32> != Some(ro[k].id));
            }
            let (l, i, g) = self.lemma_best_stored(key, max_seq);
            assert(self.entry_at(l, i, g).seq >= e.seq);
        }
        // The cover is that of a tombstone, and no newer one is left out.
        let rs = rdels_of(mem);
        if acc.cover > e.seq {
            if acc.cover == a0.cover {
                let j = law_cover_has_source(rs, key, max_seq);
                let k = lemma_rdels_of_from(mem, j);
                assert(mem[k].range_del && mem[k].seq == acc.cover);
            } else {
                let k = choose|k: int|
                    0 <= k < ro.len() && None::<u32> != Some((#[trigger] ro[k]).id) && cover_of(
                        tab_rdels(c, ro[k], d),
                        key,
                        max_seq,
                    ) == Some(acc.cover);
                let (l, i) = lemma_read_order(levels, k);
                let j = law_cover_has_source(tab_rdels(c, ro[k], d), key, max_seq);
                assert(tab_rdels(c, levels[l][i], d)[j].seq == acc.cover);
            }
        }
        if exists|k: int|
            0 <= k < mem.len() && (#[trigger] mem[k]).range_del && mem[k].seq <= max_seq
                && mem[k].seq > e.seq && lex_le(mem[k].key, key) && lex_lt(key, mem[k].val) {
            let k = choose|k: int|
                0 <= k < mem.len() && (#[trigger] mem[k]).range_del && mem[k].seq <= max_seq
                    && mem[k].seq > e.seq && lex_le(mem[k].key, key) && lex_lt(key, mem[k].val);
            assert(mem[k].val.len() > 0);
            let j = lemma_rdels_of_at(mem, k);
            law_cover_is_newest(rs, key, max_seq, j);
        }
        if exists|l: int, i: int, j: int|
            {
                let q = #[trigger] tab_rdels(c, levels[l][i], d)[j];
                0 <= l < levels.len() && 0 <= i < levels[l].len() && 0 <= j < tab_rdels(
                    c,
                    levels[l][i],
                    d,
                ).len() && q.seq <= max_seq && q.seq > e.seq && lex_le(q.start, key) && lex_lt(
                    key,
                    q.end,
                )
            } {
            let (l, i, j) = choose|l: int, i: int, j: int|
                {
                    let q = #[trigger] tab_rdels(c, levels[l][i], d)[j];
                    0 <= l < levels.len() && 0 <= i < levels[l].len() && 0 <= j < tab_rdels(
                        c,
                        levels[l][i],
                        d,
                    ).len() && q.seq <= max_seq && q.seq > e.seq && lex_le(q.start, key) && lex_lt(
                        key,
                        q.end,
                    )
                };
            assert(at(levels, l, i));
            let k = lemma_order_has(levels, l, i);
            law_cover_is_newest(tab_rdels(c, ro[k], d), key, max_seq, j);
            assert(None::<u32> != Some(ro[k].id));
        }
    }
}

} // verus!

//! Compaction makes progress: which level is drained, which tables a job
//! takes, and what becomes of them.

use vstd::prelude::*;

use super::compacted::{lemma_same_id, lemma_without_is};
use super::compaction::{heads, job_of, joined_by, without, JobV};
use super::place::at;
use super::select::{
    deepest_full, in_job, join_check, pick_all, pick_overlapping, picked, widened, with_input, PickV,
};
use super::step::compacted;
use super::{ids_ok, Db};
use crate::bytes::{lemma_lex_irreflexive, lemma_lex_le_le, lemma_lex_total, lex_le, lex_lt};
use crate::compact::bounds::overlap;
use crate::compact::merge::{Compaction, Progress, State};
use crate::device::BlockDevice;
use crate::error::Error;
use crate::manifest_format::TabV;
use crate::memtable::{bottom_seq, Rec};

verus! {

/// The level that is drained next is a full one above the bottommost, and
/// there is none deeper; where no such level is full, there is none.
pub proof fn law_deepest_full(levels: Seq<Seq<TabV>>, tables: int, n: int)
    requires
        0 <= n <= levels.len(),
    ensures
        match deepest_full(levels, tables, n) {
            Some(l) => {
                &&& 0 <= l < n
                &&& levels[l].len() >= tables
                &&& forall|m: int| l < m < n ==> (#[trigger] levels[m]).len() < tables
            },
            None => forall|m: int| 0 <= m < n ==> (#[trigger] levels[m]).len() < tables,
        },
    decreases n,
{
    if n > 0 {
        law_deepest_full(levels, tables, n - 1);
    }
}

/// The lowest sequence of a memtable: at most every one, and one of them,
/// or the highest number of all where there is none.
pub proof fn law_bottom_seq(mem: Seq<Rec>)
    ensures
        forall|i: int| 0 <= i < mem.len() ==> bottom_seq(mem) <= (#[trigger] mem[i]).seq,
        mem.len() == 0 ==> bottom_seq(mem) == u64::MAX,
        mem.len() > 0 ==> exists|i: int|
            0 <= i < mem.len() && bottom_seq(mem) == (#[trigger] mem[i]).seq,
    decreases mem.len(),
{
    if mem.len() > 0 {
        let t = mem.skip(1);
        law_bottom_seq(t);
        assert forall|i: int| 0 <= i < mem.len() implies bottom_seq(mem) <= (
        #[trigger] mem[i]).seq by {
            if i > 0 {
                assert(mem[i] == t[i - 1]);
            }
        }
        if bottom_seq(mem) == mem[0].seq {
        } else if t.len() > 0 {
            let i = choose|i: int| 0 <= i < t.len() && bottom_seq(t) == (#[trigger] t[i]).seq;
            assert(mem[i + 1] == t[i]);
        }
    }
}

/// The picked range reaches from the first key of one input to the last key
/// of one, and takes in every one.
pub(super) open spec fn hull_of(q: PickV) -> bool {
    &&& forall|x: int|
        0 <= x < q.inputs.len() ==> lex_le(q.first, (#[trigger] q.inputs[x]).1.first_key)
            && lex_le(q.inputs[x].1.last_key, q.last)
    &&& exists|x: int| 0 <= x < q.inputs.len() && (#[trigger] q.inputs[x]).1.first_key == q.first
    &&& exists|x: int| 0 <= x < q.inputs.len() && (#[trigger] q.inputs[x]).1.last_key == q.last
}

proof fn lemma_widened(q: PickV, level: int, t: TabV)
    requires
        hull_of(q) || (q.inputs.len() == 0 && q.first == t.first_key && q.last == t.last_key),
    ensures
        hull_of(widened(with_input(q, level, t), t)),
        lex_le(widened(with_input(q, level, t), t).first, q.first),
        lex_le(q.last, widened(with_input(q, level, t), t).last),
{
    let w = widened(with_input(q, level, t), t);
    let n = q.inputs.len() as int;
    lemma_lex_irreflexive(q.first);
    lemma_lex_irreflexive(q.last);
    lemma_lex_irreflexive(t.first_key);
    lemma_lex_irreflexive(t.last_key);
    lemma_lex_total(t.first_key, q.first);
    lemma_lex_total(t.last_key, q.last);
    if lex_lt(t.first_key, q.first) {
        crate::bytes::lemma_lex_asymmetric(t.first_key, q.first);
    }
    if lex_lt(q.last, t.last_key) {
        crate::bytes::lemma_lex_asymmetric(q.last, t.last_key);
    }
    assert(w.inputs[n] == (level, t));
    assert forall|x: int| 0 <= x < w.inputs.len() implies lex_le(
        w.first,
        (#[trigger] w.inputs[x]).1.first_key,
    ) && lex_le(w.inputs[x].1.last_key, w.last) by {
        if x < n {
            assert(w.inputs[x] == q.inputs[x]);
            lemma_lex_le_le(w.first, q.first, q.inputs[x].1.first_key);
            lemma_lex_le_le(q.inputs[x].1.last_key, q.last, w.last);
        }
    }
    if w.first == q.first && n > 0 {
        let x = choose|x: int| 0 <= x < n && (#[trigger] q.inputs[x]).1.first_key == q.first;
        assert(w.inputs[x] == q.inputs[x]);
    } else {
        assert(w.inputs[n].1.first_key == w.first);
    }
    if w.last == q.last && n > 0 {
        let x = choose|x: int| 0 <= x < n && (#[trigger] q.inputs[x]).1.last_key == q.last;
        assert(w.inputs[x] == q.inputs[x]);
    } else {
        assert(w.inputs[n].1.last_key == w.last);
    }
}

proof fn lemma_pick_all_is<E>(p: PickV, ss: Seq<TabV>)
    requires
        ss.len() > 0,
        p.inputs.len() == 0,
        p.first == ss[0].first_key,
        p.last == ss[0].last_key,
    ensures
        pick_all::<E>(p, ss) matches Ok(q) ==> {
            &&& q.inputs.len() == ss.len()
            &&& forall|i: int| 0 <= i < ss.len() ==> #[trigger] q.inputs[i] == (0int, ss[i])
            &&& q.n_tgt == p.n_tgt
            &&& hull_of(q)
        },
    decreases ss.len(),
{
    let d = ss.drop_last();
    if d.len() > 0 {
        lemma_pick_all_is::<E>(p, d);
        if pick_all::<E>(p, d) is Ok {
            lemma_widened(pick_all::<E>(p, d)->Ok_0, 0, ss.last());
        }
    } else {
        assert(pick_all::<E>(p, d) == Ok::<PickV, Error<E>>(p));
        lemma_widened(p, 0, ss[0]);
    }
}

proof fn lemma_pick_over_is<E>(p: PickV, tgt: int, ts: Seq<TabV>)
    requires
        hull_of(p),
    ensures
        pick_overlapping::<E>(p, tgt, ts) matches Ok(q) ==> {
            &&& hull_of(q)
            &&& lex_le(q.first, p.first)
            &&& lex_le(p.last, q.last)
            &&& p.inputs.is_prefix_of(q.inputs)
            &&& q.n_tgt - p.n_tgt == q.inputs.len() - p.inputs.len()
            &&& forall|x: int|
                p.inputs.len() <= x < q.inputs.len() ==> (#[trigger] q.inputs[x]).0 == tgt
                    && ts.contains(q.inputs[x].1)
            &&& forall|i: int|
                0 <= i < ts.len() && lex_le((#[trigger] ts[i]).first_key, p.last) && lex_le(
                    p.first,
                    ts[i].last_key,
                ) ==> q.inputs.contains((tgt, ts[i]))
        },
    decreases ts.len(),
{
    lemma_lex_irreflexive(p.first);
    lemma_lex_irreflexive(p.last);
    if ts.len() > 0 {
        let d = ts.drop_last();
        let t = ts.last();
        lemma_pick_over_is::<E>(p, tgt, d);
        match pick_overlapping::<E>(p, tgt, d) {
            Err(_) => {},
            Ok(q) => {
                let o = overlap(q.first, q.last, t.first_key, t.last_key);
                if lex_le(t.first_key, p.last) && lex_le(p.first, t.last_key) {
                    lemma_lex_le_le(t.first_key, p.last, q.last);
                    lemma_lex_le_le(q.first, p.first, t.last_key);
                    assert(o);
                }
                match pick_overlapping::<E>(p, tgt, ts) {
                    Err(_) => {},
                    Ok(w) => {
                        if o {
                            let z = PickV { n_tgt: q.n_tgt + 1, ..q };
                            assert(hull_of(z)) by {
                                assert(z.inputs == q.inputs);
                                let x = choose|x: int|
                                    0 <= x < q.inputs.len() && (
                                    #[trigger] q.inputs[x]).1.first_key == q.first;
                                let y = choose|y: int|
                                    0 <= y < q.inputs.len() && (
                                    #[trigger] q.inputs[y]).1.last_key == q.last;
                                assert(z.inputs[x] == q.inputs[x]);
                                assert(z.inputs[y] == q.inputs[y]);
                                assert forall|x: int| 0 <= x < z.inputs.len() implies lex_le(
                                    z.first,
                                    (#[trigger] z.inputs[x]).1.first_key,
                                ) && lex_le(z.inputs[x].1.last_key, z.last) by {
                                    assert(z.inputs[x] == q.inputs[x]);
                                }
                            }
                            lemma_widened(z, tgt, t);
                            assert(w =~= widened(with_input(z, tgt, t), t));
                            lemma_lex_le_le(w.first, q.first, p.first);
                            lemma_lex_le_le(p.last, q.last, w.last);
                            assert(w.inputs[q.inputs.len() as int] == (tgt, t));
                        }
                        assert forall|x: int|
                            p.inputs.len() <= x < w.inputs.len() implies (
                        #[trigger] w.inputs[x]).0 == tgt && ts.contains(w.inputs[x].1) by {
                            if x < q.inputs.len() {
                                assert(w.inputs[x] == q.inputs[x]);
                                assert(d.contains(q.inputs[x].1));
                                let k = d.index_of(q.inputs[x].1);
                                assert(ts[k] == d[k]);
                            } else {
                                assert(ts[ts.len() - 1] == t);
                            }
                        }
                        assert forall|i: int|
                            0 <= i < ts.len() && lex_le((#[trigger] ts[i]).first_key, p.last)
                                && lex_le(
                                p.first,
                                ts[i].last_key,
                            ) implies w.inputs.contains((tgt, ts[i])) by {
                            if i < d.len() {
                                assert(d[i] == ts[i]);
                                assert(q.inputs.contains((tgt, d[i])));
                                let k = q.inputs.index_of((tgt, d[i]));
                                assert(w.inputs[k] == q.inputs[k]);
                            }
                        }
                    },
                }
            },
        }
    }
}

/// What a selection takes: the tables of a full source level, all of the
/// youngest level's or the first of a deeper one, and of the level below it
/// every table that shares keys with them.
pub(super) open spec fn takes(levels: Seq<Seq<TabV>>, tables: int, src: int, q: PickV) -> bool {
    let k = if src == 0 {
        tables
    } else {
        1
    };
    &&& k <= q.inputs.len()
    &&& forall|i: int| 0 <= i < k ==> #[trigger] q.inputs[i] == (src, levels[src][i])
    &&& forall|x: int|
        k <= x < q.inputs.len() ==> (#[trigger] q.inputs[x]).0 == src + 1
            && levels[src + 1].contains(q.inputs[x].1)
    &&& q.n_tgt == q.inputs.len() - k
    &&& forall|i: int, y: int|
        0 <= i < levels[src + 1].len() && i < tables && 0 <= y < k && lex_le(
            (#[trigger] levels[src + 1][i]).first_key,
            (#[trigger] q.inputs[y]).1.last_key,
        ) && lex_le(q.inputs[y].1.first_key, levels[src + 1][i].last_key) ==> q.inputs.contains(
            (src + 1, levels[src + 1][i]),
        )
}

pub(super) proof fn lemma_picked_takes<E>(levels: Seq<Seq<TabV>>, tables: int, src: int)
    requires
        0 <= src < levels.len() - 1,
        1 <= tables <= levels[src].len(),
    ensures
        picked::<E>(src, heads(levels[src], tables), heads(levels[src + 1], tables)) matches Ok(q)
            ==> takes(levels, tables, src, q) && hull_of(q),
{
    let ss = heads(levels[src], tables);
    let ts = heads(levels[src + 1], tables);
    let p0 = PickV {
        inputs: Seq::empty(),
        n_tgt: 0,
        first: ss[0].first_key,
        last: ss[0].last_key,
    };
    let from_src = if src == 0 {
        pick_all::<E>(p0, ss)
    } else {
        match join_check::<E>(p0, ss[0]) {
            Err(e) => Err(e),
            Ok(()) => Ok(with_input(p0, src, ss[0])),
        }
    };
    lemma_pick_all_is::<E>(p0, ss);
    match from_src {
        Err(_) => {},
        Ok(p) => {
            let k = if src == 0 {
                tables
            } else {
                1
            };
            if src != 0 {
                lemma_lex_irreflexive(p.first);
                lemma_lex_irreflexive(p.last);
                assert(p.inputs[0] == (src, ss[0]));
                assert(hull_of(p));
            }
            lemma_pick_over_is::<E>(p, src + 1, ts);
            match pick_overlapping::<E>(p, src + 1, ts) {
                Err(_) => {},
                Ok(q) => {
                    assert forall|i: int| 0 <= i < k implies #[trigger] q.inputs[i] == (
                        src,
                        levels[src][i],
                    ) by {
                        assert(q.inputs[i] == p.inputs[i]);
                    }
                    assert forall|x: int| k <= x < q.inputs.len() implies (
                    #[trigger] q.inputs[x]).0 == src + 1 && levels[src + 1].contains(
                        q.inputs[x].1,
                    ) by {
                        let z = ts.index_of(q.inputs[x].1);
                        assert(levels[src + 1][z] == ts[z]);
                    }
                    assert forall|i: int, y: int|
                        0 <= i < levels[src + 1].len() && i < tables && 0 <= y < k && lex_le(
                            (#[trigger] levels[src + 1][i]).first_key,
                            (#[trigger] q.inputs[y]).1.last_key,
                        ) && lex_le(
                            q.inputs[y].1.first_key,
                            levels[src + 1][i].last_key,
                        ) implies q.inputs.contains((src + 1, levels[src + 1][i])) by {
                        assert(ts[i] == levels[src + 1][i]);
                        assert(p.inputs[y] == q.inputs[y]);
                        lemma_lex_le_le(ts[i].first_key, q.inputs[y].1.last_key, p.last);
                        lemma_lex_le_le(p.first, q.inputs[y].1.first_key, ts[i].last_key);
                    }
                },
            }
        },
    }
}

impl<
    D: BlockDevice,
    const BLOCK: usize,
    const KEY_MAX: usize,
    const VAL_MAX: usize,
    const CAP: usize,
    const ARENA: usize,
    const LEVELS: usize,
    const TABLES: usize,
    const BLOOM_BYTES: usize,
    const CACHE: usize,
> Db<D, BLOCK, KEY_MAX, VAL_MAX, CAP, ARENA, LEVELS, TABLES, BLOOM_BYTES, CACHE> {
    /// A selected job drains the deepest full level: it takes all of level
    /// 0, or the first table of a deeper level, and every table of the
    /// level below that shares keys with them. What the merge may drop
    /// follows: the output is at the bottom exactly when no deeper table
    /// shares keys with the range of the inputs, the floor is the lowest
    /// sequence outside the job, and every live snapshot is kept for.
    pub proof fn law_selection(m: &Self, j: JobV)
        requires
            m.wf(),
            m.selects(j),
        ensures
            ({
                let levels = m.man().levels;
                let src = j.target - 1;
                let k: int = if src == 0 {
                    TABLES as int
                } else {
                    1
                };
                &&& 0 <= src < LEVELS - 1
                &&& levels[src].len() >= TABLES
                &&& forall|l: int| src < l < LEVELS - 1 ==> (#[trigger] levels[l]).len() < TABLES
                &&& k <= j.inputs.len()
                &&& forall|i: int| 0 <= i < k ==> #[trigger] j.inputs[i] == (src, levels[src][i])
                &&& forall|x: int|
                    k <= x < j.inputs.len() ==> (#[trigger] j.inputs[x]).0 == src + 1
                        && levels[src + 1].contains(j.inputs[x].1)
                &&& forall|i: int, y: int|
                    0 <= i < levels[src + 1].len() && i < TABLES && 0 <= y < k && lex_le(
                        (#[trigger] levels[src + 1][i]).first_key,
                        (#[trigger] j.inputs[y]).1.last_key,
                    ) && lex_le(j.inputs[y].1.first_key, levels[src + 1][i].last_key)
                        ==> j.inputs.contains((src + 1, levels[src + 1][i]))
            }),
            ({
                let levels = m.man().levels;
                j.keep.bottommost <==> forall|l: int, i: int, x: int, y: int|
                    j.target < l < LEVELS && 0 <= i < levels[l].len() && 0 <= x < j.inputs.len()
                        && 0 <= y < j.inputs.len() ==> !(lex_le(
                        (#[trigger] j.inputs[x]).1.first_key,
                        (#[trigger] levels[l][i]).last_key,
                    ) && lex_le(levels[l][i].first_key, (#[trigger] j.inputs[y]).1.last_key))
            }),
            forall|i: int|
                0 <= i < m.mem().len() ==> j.keep.outside_min_seq <= (#[trigger] m.mem()[i]).seq,
            ({
                let levels = m.man().levels;
                ||| j.keep.outside_min_seq == u64::MAX
                ||| exists|i: int|
                    0 <= i < m.mem().len() && (#[trigger] m.mem()[i]).seq
                        == j.keep.outside_min_seq
                ||| exists|l: int, i: int, x: int, y: int|
                    {
                        &&& 0 <= l < LEVELS && 0 <= i < levels[l].len()
                        &&& 0 <= x < j.inputs.len() && 0 <= y < j.inputs.len()
                        &&& (#[trigger] levels[l][i]).min_seq == j.keep.outside_min_seq
                        &&& forall|z: int|
                            0 <= z < j.inputs.len() ==> (#[trigger] j.inputs[z]).1.id
                                != levels[l][i].id
                        &&& lex_le((#[trigger] j.inputs[x]).1.first_key, levels[l][i].last_key)
                        &&& lex_le(levels[l][i].first_key, (#[trigger] j.inputs[y]).1.last_key)
                    }
            }),
            forall|i: int|
                0 <= i < m.snaps().len() ==> j.keep.snapshots.contains(#[trigger] m.snaps()[i])
                    && j.keep.oldest_snapshot <= m.snaps()[i],
            forall|i: int|
                0 <= i < j.keep.snapshots.len() ==> m.snaps().contains(
                    #[trigger] j.keep.snapshots[i],
                ),
            m.snaps().len() == 0 ==> j.keep.oldest_snapshot == u64::MAX,
            m.snaps().len() > 0 ==> m.snaps().contains(j.keep.oldest_snapshot),
    {
        let levels = m.man().levels;
        let src = m.job_source()->0;
        let p = m.job_pick(src)->Ok_0;
        m.lemma_wf();
        law_deepest_full(levels, TABLES as int, LEVELS - 1);
        lemma_picked_takes::<D::Error>(levels, TABLES as int, src);
        law_bottom_seq(m.mem());
        let fx = choose|x: int| 0 <= x < p.inputs.len() && (#[trigger] p.inputs[x]).1.first_key
            == p.first;
        let lx = choose|x: int| 0 <= x < p.inputs.len() && (#[trigger] p.inputs[x]).1.last_key
            == p.last;
        if j.keep.bottommost {
            assert forall|l: int, i: int, x: int, y: int|
                j.target < l < LEVELS && 0 <= i < levels[l].len() && 0 <= x < j.inputs.len() && 0
                    <= y < j.inputs.len() implies !(lex_le(
                (#[trigger] j.inputs[x]).1.first_key,
                (#[trigger] levels[l][i]).last_key,
            ) && lex_le(levels[l][i].first_key, (#[trigger] j.inputs[y]).1.last_key)) by {
                let u = levels[l][i];
                assert(!overlap(p.first, p.last, u.first_key, u.last_key));
                if lex_le(j.inputs[x].1.first_key, u.last_key) && lex_le(
                    u.first_key,
                    j.inputs[y].1.last_key,
                ) {
                    lemma_lex_le_le(p.first, j.inputs[x].1.first_key, u.last_key);
                    lemma_lex_le_le(u.first_key, j.inputs[y].1.last_key, p.last);
                }
            }
        } else {
            let (l, i) = choose|l: int, i: int|
                j.target < l < levels.len() && 0 <= i < levels[l].len() && overlap(
                    p.first,
                    p.last,
                    (#[trigger] levels[l][i]).first_key,
                    levels[l][i].last_key,
                );
            assert(j.inputs[fx].1.first_key == p.first);
            assert(j.inputs[lx].1.last_key == p.last);
        }
        assert(j.inputs[fx].1.first_key == p.first);
        assert(j.inputs[lx].1.last_key == p.last);
        if j.keep.outside_min_seq != bottom_seq(m.mem()) {
            let (l, i) = choose|l: int, i: int|
                0 <= l < levels.len() && 0 <= i < levels[l].len() && super::select::outside(
                    p.inputs,
                    p.first,
                    p.last,
                    #[trigger] levels[l][i],
                ) && j.keep.outside_min_seq == levels[l][i].min_seq;
            let u = levels[l][i];
            assert(u.min_seq == j.keep.outside_min_seq);
            assert forall|z: int| 0 <= z < j.inputs.len() implies (#[trigger] j.inputs[z]).1.id
                != u.id by {
                if j.inputs[z].1.id == u.id {
                    assert(in_job(p.inputs, u.id));
                }
            }
            assert(lex_le(j.inputs[fx].1.first_key, levels[l][i].last_key));
            assert(lex_le(levels[l][i].first_key, j.inputs[lx].1.last_key));
        }
    }

    /// An idle step does nothing only where there is nothing to do, and
    /// where some level above the bottommost is full it works on the
    /// deepest: when it is done, the source tables have left that level,
    /// nothing but the level below has gained, by one table at most, and
    /// every other level is as it was. A step that has more to do, or that
    /// failed, left the tables alone.
    #[verifier::rlimit(40)]
    pub proof fn law_step_drains(
        a: &Self,
        b: &Self,
        c0: &Compaction<BLOCK, KEY_MAX, VAL_MAX, BLOOM_BYTES>,
        c1: &Compaction<BLOCK, KEY_MAX, VAL_MAX, BLOOM_BYTES>,
        r: Result<Progress, Error<D::Error>>,
        l: int,
    )
        requires
            a.wf(),
            a.is_opened(),
            a.tidy(),
            !(c0.state == State::Merging && a.job().0 && c0.job_gen == a.job().1),
            Self::stepped(a, b, c0, c1, r),
            0 <= l < LEVELS - 1,
            a.man().levels[l].len() >= TABLES,
            forall|n: int| l < n < LEVELS - 1 ==> (#[trigger] a.man().levels[n]).len() < TABLES,
        ensures
            match r {
                Ok(Progress::Done) => {
                    let was = a.man().levels;
                    let now = b.man().levels;
                    &&& b.man().seq == a.man().seq + 1
                    &&& now.len() == LEVELS
                    &&& forall|n: int, t: TabV|
                        0 <= n < LEVELS && n != l && n != l + 1 ==> (#[trigger] was[n].contains(t)
                            <==> now[n].contains(t))
                    &&& forall|t: TabV|
                        #[trigger] now[l].contains(t) <==> was[l].contains(t) && if l == 0 {
                            !was[0].take(TABLES as int).contains(t)
                        } else {
                            t != was[l][0]
                        }
                    &&& forall|t: TabV, u: TabV|
                        #[trigger] now[l + 1].contains(t) && #[trigger] now[l + 1].contains(u)
                            && !was[l + 1].contains(t) && !was[l + 1].contains(u) ==> t == u
                },
                Ok(Progress::More) => {
                    &&& b.man() == a.man()
                    &&& c1.state == State::Merging && b.job().0 && c1.job_gen == b.job().1
                    &&& c1.target_level == l + 1
                    &&& c1.inputs@[0].level == l && c1.inputs@[0].tref@ == a.man().levels[l][0]
                    &&& c1.writer@.groups.len() == 1
                },
                Err(_) => b.man() == a.man() && !b.job().0 && c1.state == State::Idle,
            },
    {
        reveal(Db::tidy);
        a.lemma_tidy_seated();
        let m = choose|m: Self| #[trigger]
            m.idled(a) && m.wf() && Self::stepped_anew(&m, b, c1, c0.purge_before, r);
        let was = a.man().levels;
        a.lemma_wf();
        law_deepest_full(was, TABLES as int, LEVELS - 1);
        let src = m.job_source()->0;
        assert(m.job_source() is Some);
        assert(src == l) by {
            if src < l {
                assert(was[l].len() >= TABLES);
            } else if src > l {
                assert(was[src].len() < TABLES);
            }
        }
        Self::lemma_seated_same(a, &m);
        if exists|j: JobV| #[trigger]
            m.selects(j) && j.keep.purge_before == c0.purge_before && Self::stepped_on(
                &m,
                b,
                c1,
                j,
                0,
                r,
            ) && b.slot_map().next_hint() == (j.slot + 1) % (m.slot_map().slot_count() as int) {
            let j = choose|j: JobV| #[trigger]
                m.selects(j) && j.keep.purge_before == c0.purge_before && Self::stepped_on(
                    &m,
                    b,
                    c1,
                    j,
                    0,
                    r,
                ) && b.slot_map().next_hint() == (j.slot + 1) % (
                m.slot_map().slot_count() as int);
            Self::law_selection(&m, j);
            m.lemma_selects_fits(j);
            if r == Ok::<Progress, Error<D::Error>>(Progress::Done) {
                let w = super::compaction::job_data::<D::Error>(
                    m.content(),
                    j,
                    BLOCK as int,
                    KEY_MAX,
                    VAL_MAX,
                )->Ok_0;
                let out = m.job_result(j, w);
                assert(b.man() == m.job_man(j, out));
                assert(m.man().seq < u64::MAX);
                lemma_drained(was, TABLES as int, l, j, out, a.man().next_table_id);
            } else if r == Ok::<Progress, Error<D::Error>>(Progress::More) {
                assert(j.inputs[0] == (l, was[l][0]));
                assert(job_of(*c1).inputs[0] == j.inputs[0]);
            }
        }
    }

    /// Where no level above the bottommost is full, an idle step is done at
    /// once and changes no table.
    pub proof fn law_step_rests(
        a: &Self,
        b: &Self,
        c0: &Compaction<BLOCK, KEY_MAX, VAL_MAX, BLOOM_BYTES>,
        c1: &Compaction<BLOCK, KEY_MAX, VAL_MAX, BLOOM_BYTES>,
        r: Result<Progress, Error<D::Error>>,
    )
        requires
            a.wf(),
            a.is_opened(),
            !(c0.state == State::Merging && a.job().0 && c0.job_gen == a.job().1),
            Self::stepped(a, b, c0, c1, r),
            forall|n: int| 0 <= n < LEVELS - 1 ==> (#[trigger] a.man().levels[n]).len() < TABLES,
        ensures
            r == Ok::<Progress, Error<D::Error>>(Progress::Done),
            b.man() == a.man(),
            b.content() == a.content(),
            b.mem() == a.mem(),
            !b.job().0,
    {
        let m = choose|m: Self| #[trigger]
            m.idled(a) && m.wf() && Self::stepped_anew(&m, b, c1, c0.purge_before, r);
        a.lemma_wf();
        law_deepest_full(a.man().levels, TABLES as int, LEVELS - 1);
        let src = m.job_source();
        if src is Some {
            assert(a.man().levels[src->0].len() < TABLES);
        }
    }

    /// Compaction is pending exactly while some level above the bottommost
    /// holds `TABLES` tables or more.
    pub proof fn law_pending(levels: Seq<Seq<TabV>>)
        ensures
            super::room::some_level_full(levels, TABLES as int) <==> exists|l: int|
                0 <= l < levels.len() - 1 && (#[trigger] levels[l]).len() >= TABLES,
    {
    }
}

/// A table stands in a level once more where another joined it.
proof fn lemma_joined_has(ls: Seq<Seq<TabV>>, l: int, t: TabV, n: int, u: TabV)
    requires
        0 <= l < ls.len(),
        0 <= n < ls.len(),
    ensures
        joined_by(ls, l, t).len() == ls.len(),
        joined_by(ls, l, t)[n].contains(u) <==> ls[n].contains(u) || (n == l && u == t),
{
    let p = crate::manifest::lead_below(ls[l], t.first_key);
    crate::manifest::lemma_lead_below(ls[l], t.first_key);
    let js = joined_by(ls, l, t);
    if n == l {
        if ls[l].contains(u) {
            let k = ls[l].index_of(u);
            if k < p {
                assert(js[l][k] == u);
            } else {
                assert(js[l][k + 1] == u);
            }
        }
        if u == t {
            assert(js[l][p] == t);
        }
        if js[l].contains(u) {
            let k = js[l].index_of(u);
            if k < p {
                assert(ls[l][k] == u);
            } else if k > p {
                assert(ls[l][k - 1] == u);
            }
        }
    }
}

/// The levels after a job are those before it without its inputs, and with
/// its output in the target level.
proof fn lemma_drained(
    was: Seq<Seq<TabV>>,
    tables: int,
    l: int,
    j: JobV,
    out: Option<TabV>,
    next_id: u32,
)
    requires
        ids_ok(was, next_id),
        super::compaction::inputs_live(was, j.inputs),
        super::compaction::inputs_once(j.inputs),
        0 <= l < was.len() - 1,
        j.target == l + 1,
        1 <= tables <= was[l].len(),
        ({
            let k = if l == 0 {
                tables
            } else {
                1
            };
            &&& k <= j.inputs.len()
            &&& forall|i: int| 0 <= i < k ==> #[trigger] j.inputs[i] == (l, was[l][i])
            &&& forall|x: int| k <= x < j.inputs.len() ==> (#[trigger] j.inputs[x]).0 == l + 1
        }),
    ensures
        ({
            let now = compacted(was, j, out);
            &&& now.len() == was.len()
            &&& forall|n: int, t: TabV|
                0 <= n < was.len() && n != l && n != l + 1 ==> (#[trigger] was[n].contains(t)
                    <==> now[n].contains(t))
            &&& forall|t: TabV|
                #[trigger] now[l].contains(t) <==> was[l].contains(t) && if l == 0 {
                    !was[0].take(tables).contains(t)
                } else {
                    t != was[l][0]
                }
            &&& forall|t: TabV, u: TabV|
                #[trigger] now[l + 1].contains(t) && #[trigger] now[l + 1].contains(u) && !was[l
                    + 1].contains(t) && !was[l + 1].contains(u) ==> t == u
        }),
{
    let now = compacted(was, j, out);
    let ls = without(was, j.inputs);
    let k = if l == 0 {
        tables
    } else {
        1
    };
    lemma_without_is(was, j.inputs, next_id);
    assert forall|n: int, t: TabV| 0 <= n < was.len() implies #[trigger] now[n].contains(t) == (
    ls[n].contains(t) || (n == l + 1 && out == Some(t))) by {
        if out is Some {
            lemma_joined_has(ls, l + 1, out->0, n, t);
        }
    }
    assert(now.len() == was.len()) by {
        if out is Some {
            lemma_joined_has(ls, l + 1, out->0, 0, out->0);
        }
    }
    // A table of level `n` is kept exactly when it is no input of level `n`.
    assert forall|n: int, t: TabV| 0 <= n < was.len() implies #[trigger] ls[n].contains(t) == (
    was[n].contains(t) && !in_job(j.inputs, t.id)) by {
        if ls[n].contains(t) {
            let i = ls[n].index_of(t);
            assert(at(ls, n, i));
            assert(ls[n][i] == t);
        }
        if was[n].contains(t) && !in_job(j.inputs, t.id) {
            let i = was[n].index_of(t);
            assert(at(was, n, i));
            assert(was[n][i] == t);
        }
    }
    assert forall|n: int, t: TabV|
        0 <= n < was.len() && n != l && n != l + 1 implies (#[trigger] was[n].contains(t)
        <==> now[n].contains(t)) by {
        assert(now[n].contains(t) == ls[n].contains(t));
        if was[n].contains(t) && in_job(j.inputs, t.id) {
            let x = choose|x: int| 0 <= x < j.inputs.len() && (#[trigger] j.inputs[x]).1.id == t.id;
            let i = was[n].index_of(t);
            lemma_same_id(was, j.inputs, x, n, i, next_id);
        }
    }
    assert forall|t: TabV| #[trigger] now[l].contains(t) <==> was[l].contains(t) && if l == 0 {
        !was[0].take(tables).contains(t)
    } else {
        t != was[l][0]
    } by {
        assert(now[l].contains(t) == ls[l].contains(t));
        if was[l].contains(t) {
            let i = was[l].index_of(t);
            if in_job(j.inputs, t.id) {
                let x = choose|x: int|
                    0 <= x < j.inputs.len() && (#[trigger] j.inputs[x]).1.id == t.id;
                lemma_same_id(was, j.inputs, x, l, i, next_id);
                assert(x < k);
                assert(j.inputs[x] == (l, was[l][x]));
                if l == 0 {
                    assert(was[0].take(tables)[x] == t);
                }
            }
            if l == 0 {
                if was[0].take(tables).contains(t) {
                    let y = was[0].take(tables).index_of(t);
                    assert(j.inputs[y] == (l, was[l][y]));
                    assert(in_job(j.inputs, t.id));
                }
            } else {
                if t == was[l][0] {
                    assert(j.inputs[0] == (l, was[l][0]));
                    assert(in_job(j.inputs, t.id));
                }
            }
        }
    }
    assert forall|t: TabV, u: TabV|
        #[trigger] now[l + 1].contains(t) && #[trigger] now[l + 1].contains(u) && !was[l
            + 1].contains(t) && !was[l + 1].contains(u) implies t == u by {
        assert(ls[l + 1].contains(t) ==> was[l + 1].contains(t));
        assert(ls[l + 1].contains(u) ==> was[l + 1].contains(u));
    }
}

} // verus!

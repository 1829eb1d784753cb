//! What a merge keeps: the k-way order of its inputs, and the version
//! retention rule.

use vstd::prelude::*;

use super::cursor::{before, ended, failed, StreamV};
use crate::bytes::{
    lemma_lex_asymmetric, lemma_lex_irreflexive, lemma_lex_lt_le, lemma_lex_total,
    lemma_lex_transitive, lex_le, lex_lt,
};
use crate::memtable::{is_hit, key_sorted, runs_newest_first, visible_version, Rec};
use crate::model::threshold;

verus! {

// ---------------------------------------------------------------------
// The order in which the inputs' entries surface.

/// Input `i` holds the entry that surfaces next: the smallest key, of that
/// the highest sequence, and of equals the first input.
pub open spec fn is_pick(ss: Seq<StreamV>, i: int) -> bool {
    &&& 0 <= i < ss.len()
    &&& ss[i].recs.len() > 0
    &&& forall|j: int|
        0 <= j < ss.len() && (#[trigger] ss[j]).recs.len() > 0 ==> surfaces(ss, i, j)
}

/// The head of input `i` surfaces no later than that of `j`.
pub open spec fn surfaces(ss: Seq<StreamV>, i: int, j: int) -> bool {
    let a = ss[i].recs[0];
    let b = ss[j].recs[0];
    lex_lt(a.key, b.key) || (a.key == b.key && (a.seq > b.seq || (a.seq == b.seq && i <= j)))
}

/// No input has an entry left.
pub open spec fn drained(ss: Seq<StreamV>) -> bool {
    forall|i: int| 0 <= i < ss.len() ==> (#[trigger] ss[i]).recs.len() == 0
}

/// Entries left in all inputs.
pub open spec fn left_in(ss: Seq<StreamV>) -> nat
    decreases ss.len(),
{
    if ss.len() == 0 {
        0
    } else {
        left_in(ss.drop_last()) + ss.last().recs.len()
    }
}

/// The inputs after the head of input `i` surfaced.
pub open spec fn popped(ss: Seq<StreamV>, i: int) -> Seq<StreamV> {
    ss.update(i, StreamV { recs: ss[i].recs.skip(1), fault: ss[i].fault })
}

pub proof fn lemma_left_popped(ss: Seq<StreamV>, i: int)
    requires
        0 <= i < ss.len(),
        ss[i].recs.len() > 0,
    ensures
        left_in(ss) > 0,
        left_in(popped(ss, i)) == left_in(ss) - 1,
    decreases ss.len(),
{
    let d = ss.drop_last();
    if i == ss.len() - 1 {
        assert(popped(ss, i).drop_last() =~= d);
    } else {
        lemma_left_popped(d, i);
        assert(popped(ss, i).drop_last() =~= popped(d, i));
    }
}

/// Two inputs cannot both surface next.
pub proof fn lemma_pick_unique(ss: Seq<StreamV>, i: int, j: int)
    requires
        is_pick(ss, i),
        is_pick(ss, j),
    ensures
        i == j,
{
    let a = ss[i].recs[0].key;
    let b = ss[j].recs[0].key;
    assert(surfaces(ss, i, j));
    assert(surfaces(ss, j, i));
    lemma_lex_irreflexive(a);
    if lex_lt(a, b) {
        if lex_lt(b, a) {
            lemma_lex_transitive(a, b, a);
        }
    }
}

/// The entries of all inputs in the order they surface, up to the first
/// fault.
pub open spec fn zipped(ss: Seq<StreamV>) -> StreamV
    decreases left_in(ss),
{
    if exists|i: int| is_pick(ss, i) {
        let i = choose|i: int| is_pick(ss, i);
        proof {
            lemma_left_popped(ss, i);
        }
        if ss[i].recs.len() == 1 && ss[i].fault is Some {
            before(ss[i].recs[0], failed(ss[i].fault->0))
        } else {
            before(ss[i].recs[0], zipped(popped(ss, i)))
        }
    } else {
        ended()
    }
}

/// One entry surfaces.
pub proof fn lemma_zip_step(ss: Seq<StreamV>, i: int)
    requires
        is_pick(ss, i),
    ensures
        zipped(ss) == (if ss[i].recs.len() == 1 && ss[i].fault is Some {
            before(ss[i].recs[0], failed(ss[i].fault->0))
        } else {
            before(ss[i].recs[0], zipped(popped(ss, i)))
        }),
{
    let j = choose|j: int| is_pick(ss, j);
    lemma_pick_unique(ss, i, j);
}

/// Drained inputs surface nothing.
pub proof fn lemma_zip_end(ss: Seq<StreamV>)
    requires
        drained(ss),
    ensures
        zipped(ss) == ended(),
{
    if exists|i: int| is_pick(ss, i) {
        let i = choose|i: int| is_pick(ss, i);
        assert(ss[i].recs.len() == 0);
    }
}

/// Some input surfaces next unless all are drained.
proof fn lemma_pick_exists(ss: Seq<StreamV>) -> (r: int)
    requires
        !drained(ss),
    ensures
        is_pick(ss, r),
    decreases ss.len(),
{
    let d = ss.drop_last();
    let l = ss.len() - 1;
    if drained(d) {
        let k = choose|k: int| 0 <= k < ss.len() && (#[trigger] ss[k]).recs.len() != 0;
        if k < l {
            assert(d[k].recs.len() == 0);
        }
        assert forall|j: int|
            0 <= j < ss.len() && (#[trigger] ss[j]).recs.len() > 0 implies surfaces(ss, l, j) by {
            if j < l {
                assert(d[j].recs.len() == 0);
            }
        }
        l
    } else {
        let m = lemma_pick_exists(d);
        assert(d[m] == ss[m]);
        if ss[l].recs.len() == 0 {
            assert forall|j: int|
                0 <= j < ss.len() && (#[trigger] ss[j]).recs.len() > 0 implies surfaces(
                ss,
                m,
                j,
            ) by {
                assert(d[j] == ss[j]);
                assert(surfaces(d, m, j));
            }
            m
        } else {
            let a = ss[m].recs[0];
            let b = ss[l].recs[0];
            lemma_lex_total(a.key, b.key);
            if surfaces(ss, m, l) {
                assert forall|j: int|
                    0 <= j < ss.len() && (#[trigger] ss[j]).recs.len() > 0 implies surfaces(
                    ss,
                    m,
                    j,
                ) by {
                    if j < l {
                        assert(d[j] == ss[j]);
                        assert(surfaces(d, m, j));
                    }
                }
                m
            } else {
                assert forall|j: int|
                    0 <= j < ss.len() && (#[trigger] ss[j]).recs.len() > 0 implies surfaces(
                    ss,
                    l,
                    j,
                ) by {
                    if j < l {
                        assert(d[j] == ss[j]);
                        assert(surfaces(d, m, j));
                        let e = ss[j].recs[0];
                        if lex_lt(b.key, a.key) && lex_lt(a.key, e.key) {
                            lemma_lex_transitive(b.key, a.key, e.key);
                        }
                    }
                }
                l
            }
        }
    }
}

/// Entry `e` is held by input `i`.
pub open spec fn held(ss: Seq<StreamV>, i: int, g: int) -> bool {
    0 <= i < ss.len() && 0 <= g < ss[i].recs.len()
}

/// The inputs are sorted and without faults.
pub open spec fn mergeable(ss: Seq<StreamV>) -> bool {
    forall|i: int| 0 <= i < ss.len() ==> sorted_stream(#[trigger] ss[i])
}

/// No version of a key comes before a newer one.
pub open spec fn runs_descend(es: Seq<Rec>) -> bool {
    forall|i: int, j: int|
        #![trigger es[i], es[j]]
        0 <= i < j < es.len() && es[i].key == es[j].key ==> es[i].seq >= es[j].seq
}

/// A stream of sorted entries without a fault.
pub open spec fn sorted_stream(s: StreamV) -> bool {
    key_sorted(s.recs) && runs_newest_first(s.recs) && s.fault is None
}

/// The entry is held by some input.
pub open spec fn among(ss: Seq<StreamV>, e: Rec) -> bool {
    exists|i: int, g: int| held(ss, i, g) && #[trigger] ss[i].recs[g] == e
}

/// The merged entries are sorted, newest version first, and are exactly
/// those of the inputs.
pub proof fn law_merge_order(ss: Seq<StreamV>)
    requires
        mergeable(ss),
    ensures
        zipped(ss).fault is None,
        key_sorted(zipped(ss).recs),
        runs_descend(zipped(ss).recs),
        zipped(ss).recs.len() == left_in(ss),
        forall|g: int| 0 <= g < zipped(ss).recs.len() ==> among(ss, #[trigger] zipped(ss).recs[g]),
        forall|e: Rec| #[trigger] among(ss, e) ==> zipped(ss).recs.contains(e),
    decreases left_in(ss),
{
    let out = zipped(ss).recs;
    if drained(ss) {
        lemma_zip_end(ss);
        lemma_left_zero(ss);
    } else {
        let i = lemma_pick_exists(ss);
        lemma_zip_step(ss, i);
        lemma_left_popped(ss, i);
        let tt = popped(ss, i);
        let e = ss[i].recs[0];
        assert(sorted_stream(ss[i]));
        assert forall|k: int| 0 <= k < tt.len() implies sorted_stream(#[trigger] tt[k]) by {
            assert(sorted_stream(ss[k]));
            if k == i {
                let a = ss[i].recs;
                let b = tt[i].recs;
                assert forall|x: int, y: int| 0 <= x <= y < b.len() implies #[trigger] lex_le(
                    b[x].key,
                    #[trigger] b[y].key,
                ) by {
                    assert(lex_le(a[x + 1].key, a[y + 1].key));
                }
                assert forall|x: int, y: int|
                    #![trigger b[x], b[y]]
                    0 <= x < y < b.len() && b[x].key == b[y].key implies b[x].seq > b[y].seq by {
                    assert(a[x + 1].key == a[y + 1].key);
                }
            }
        }
        law_merge_order(tt);
        let rest = zipped(tt).recs;
        assert(out =~= seq![e] + rest);
        // The first entry precedes every other.
        assert forall|g: int| 0 <= g < rest.len() implies lex_lt(e.key, (#[trigger] rest[g]).key)
            || (e.key == rest[g].key && e.seq >= rest[g].seq) by {
            assert(among(tt, rest[g]));
            let (j, h) = choose|j: int, h: int| held(tt, j, h) && #[trigger] tt[j].recs[h] == rest[g];
            lemma_precedes(ss, i, j, if j == i {
                h + 1
            } else {
                h
            });
        }
        assert forall|x: int, y: int| 0 <= x <= y < out.len() implies #[trigger] lex_le(
            out[x].key,
            #[trigger] out[y].key,
        ) by {
            if x > 0 {
                assert(lex_le(rest[x - 1].key, rest[y - 1].key));
            } else if y > 0 {
                assert(out[y] == rest[y - 1]);
                lemma_lex_irreflexive(e.key);
                if lex_lt(e.key, out[y].key) {
                    lemma_lex_asymmetric(e.key, out[y].key);
                }
            } else {
                lemma_lex_irreflexive(e.key);
            }
        }
        assert forall|x: int, y: int|
            #![trigger out[x], out[y]]
            0 <= x < y < out.len() && out[x].key == out[y].key implies out[x].seq >= out[y].seq by {
            assert(out[y] == rest[y - 1]);
            lemma_lex_irreflexive(e.key);
            if x > 0 {
                assert(out[x] == rest[x - 1]);
            }
        }
        assert forall|g: int| 0 <= g < out.len() implies among(ss, #[trigger] out[g]) by {
            if g == 0 {
                assert(held(ss, i, 0) && ss[i].recs[0] == e);
            } else {
                let r = rest[g - 1];
                assert(among(tt, r));
                let (j, h) = choose|j: int, h: int| held(tt, j, h) && #[trigger] tt[j].recs[h] == r;
                let h2 = if j == i {
                    h + 1
                } else {
                    h
                };
                assert(held(ss, j, h2) && ss[j].recs[h2] == r);
            }
        }
        assert forall|r: Rec| #[trigger] among(ss, r) implies out.contains(r) by {
            let (j, h) = choose|j: int, h: int| held(ss, j, h) && #[trigger] ss[j].recs[h] == r;
            if j == i && h == 0 {
                assert(out[0] == r);
            } else {
                let h2 = if j == i {
                    h - 1
                } else {
                    h
                };
                assert(held(tt, j, h2) && tt[j].recs[h2] == r);
                assert(among(tt, r));
                let g = rest.index_of(r);
                assert(out[g + 1] == r);
            }
        }
    }
}

proof fn lemma_left_zero(ss: Seq<StreamV>)
    requires
        drained(ss),
    ensures
        left_in(ss) == 0,
    decreases ss.len(),
{
    if ss.len() > 0 {
        let d = ss.drop_last();
        assert forall|i: int| 0 <= i < d.len() implies (#[trigger] d[i]).recs.len() == 0 by {
            assert(ss[i].recs.len() == 0);
        }
        lemma_left_zero(d);
        assert(ss[ss.len() - 1].recs.len() == 0);
    }
}

/// The entry that surfaces next precedes every other.
proof fn lemma_precedes(ss: Seq<StreamV>, i: int, j: int, h: int)
    requires
        mergeable(ss),
        is_pick(ss, i),
        held(ss, j, h),
        j != i || h > 0,
    ensures
        lex_lt(ss[i].recs[0].key, ss[j].recs[h].key) || (ss[i].recs[0].key == ss[j].recs[h].key
            && ss[i].recs[0].seq >= ss[j].recs[h].seq),
{
    let a = ss[i].recs[0];
    let f = ss[j].recs[0];
    let b = ss[j].recs[h];
    assert(sorted_stream(ss[j]));
    assert(surfaces(ss, i, j));
    assert(lex_le(f.key, b.key));
    if lex_lt(a.key, f.key) {
        lemma_lex_lt_le(a.key, f.key, b.key);
    } else if f.key == b.key {
        if h > 0 {
            assert(ss[j].recs[0].key == ss[j].recs[h].key);
        }
    } else {
        lemma_lex_total(f.key, b.key);
    }
}

// ---------------------------------------------------------------------
// Which versions are kept.

/// What a merge keeps by.
#[verifier::ext_equal]
pub struct KeepV {
    /// Nothing below the output can hold a version of its keys.
    pub bottommost: bool,
    /// Live snapshot watermarks.
    pub snapshots: Seq<u64>,
    /// The oldest of them (`u64::MAX` without any).
    pub oldest_snapshot: u64,
    /// Lowest sequence that anything outside the merge could hold.
    pub outside_min_seq: u64,
    /// Values that expire at or before this tick become tombstones.
    pub purge_before: u64,
}

/// The key being merged.
#[verifier::ext_equal]
pub struct KeyV {
    pub key: Seq<u8>,
    /// All its versions are dropped.
    pub dropping: bool,
    /// Lowest sequence emitted for it.
    pub low: Option<u64>,
}

/// The entry deletes its key: a tombstone, or a value that the purge turns
/// into one.
pub open spec fn deletes(p: KeepV, e: Rec) -> bool {
    e.tombstone || (e.expire_at != 0 && e.expire_at <= p.purge_before)
}

/// The entry as it is written.
pub open spec fn settled(p: KeepV, e: Rec) -> Rec {
    if deletes(p, e) {
        Rec { val: Seq::empty(), tombstone: true, expire_at: 0, ..e }
    } else {
        e
    }
}

/// A key whose newest version is `e` is dropped whole: it is deleted, every
/// snapshot sees the deletion, and nothing outside is older.
pub open spec fn drops(p: KeepV, e: Rec) -> bool {
    p.bottommost && deletes(p, e) && e.seq < p.oldest_snapshot && e.seq < p.outside_min_seq
}

/// The version with sequence `seq` is the newest for some threshold that
/// the versions down to `low` do not serve.
pub open spec fn wanted(p: KeepV, low: Option<u64>, seq: u64) -> bool {
    exists|t: int|
        0 <= t <= p.snapshots.len() && seq <= #[trigger] threshold(p.snapshots, t) && !served(
            p,
            low,
            t,
        )
}

/// Threshold `t` is served.
pub open spec fn served(p: KeepV, low: Option<u64>, t: int) -> bool {
    low matches Some(l) && l <= threshold(p.snapshots, t)
}

/// The key state in which entry `e` is looked at.
pub open spec fn key_at(p: KeepV, st: Option<KeyV>, e: Rec) -> KeyV {
    match st {
        Some(k) => if k.key == e.key {
            k
        } else {
            KeyV { key: e.key, dropping: drops(p, e), low: None }
        },
        None => KeyV { key: e.key, dropping: drops(p, e), low: None },
    }
}

/// The entry is emitted.
pub open spec fn emits(p: KeepV, k: KeyV, e: Rec) -> bool {
    !k.dropping && wanted(p, k.low, e.seq)
}

/// The key state behind entry `e`.
pub open spec fn key_after(p: KeepV, k: KeyV, e: Rec) -> KeyV {
    if emits(p, k, e) {
        KeyV {
            low: Some(
                match k.low {
                    Some(l) => if l < e.seq {
                        l
                    } else {
                        e.seq
                    },
                    None => e.seq,
                },
            ),
            ..k
        }
    } else {
        k
    }
}

/// What is emitted of the entries.
pub open spec fn sifted(p: KeepV, st: Option<KeyV>, es: Seq<Rec>) -> Seq<Rec>
    decreases es.len(),
{
    if es.len() == 0 {
        Seq::empty()
    } else {
        let k = key_at(p, st, es[0]);
        let rest = sifted(p, Some(key_after(p, k, es[0])), es.skip(1));
        if emits(p, k, es[0]) {
            seq![settled(p, es[0])] + rest
        } else {
            rest
        }
    }
}

/// The first version of `key` at or below `max_seq`.
pub open spec fn first_at(es: Seq<Rec>, key: Seq<u8>, max_seq: u64) -> Option<Rec>
    decreases es.len(),
{
    if es.len() == 0 {
        None
    } else if visible_version(es, key, max_seq, 0) {
        Some(es[0])
    } else {
        first_at(es.skip(1), key, max_seq)
    }
}

/// The first visible version is the one a lookup hits.
pub proof fn lemma_first_at(es: Seq<Rec>, key: Seq<u8>, max_seq: u64)
    ensures
        match first_at(es, key, max_seq) {
            Some(e) => exists|i: int| #[trigger] is_hit(es, key, max_seq, i) && es[i] == e,
            None => forall|i: int| !#[trigger] visible_version(es, key, max_seq, i),
        },
    decreases es.len(),
{
    if es.len() > 0 {
        if visible_version(es, key, max_seq, 0) {
            assert(is_hit(es, key, max_seq, 0));
        } else {
            let d = es.skip(1);
            lemma_first_at(d, key, max_seq);
            match first_at(d, key, max_seq) {
                Some(e) => {
                    let i = choose|i: int| #[trigger] is_hit(d, key, max_seq, i) && d[i] == e;
                    assert forall|j: int| 0 <= j < i + 1 implies !#[trigger] visible_version(
                        es,
                        key,
                        max_seq,
                        j,
                    ) by {
                        if j > 0 {
                            assert(!visible_version(d, key, max_seq, j - 1));
                        }
                    }
                    assert(is_hit(es, key, max_seq, i + 1));
                },
                None => {
                    assert forall|i: int| !#[trigger] visible_version(es, key, max_seq, i) by {
                        if i > 0 {
                            assert(!visible_version(d, key, max_seq, i - 1));
                        }
                    }
                },
            }
        }
    }
}

/// The key does not occur.
spec fn absent(es: Seq<Rec>, key: Seq<u8>) -> bool {
    forall|i: int| 0 <= i < es.len() ==> (#[trigger] es[i]).key != key
}

/// What does not occur is not emitted.
proof fn lemma_sift_absent(p: KeepV, st: Option<KeyV>, es: Seq<Rec>, key: Seq<u8>, max_seq: u64)
    requires
        absent(es, key),
    ensures
        first_at(sifted(p, st, es), key, max_seq) is None,
        absent(sifted(p, st, es), key),
    decreases es.len(),
{
    if es.len() > 0 {
        let k = key_at(p, st, es[0]);
        let d = es.skip(1);
        assert forall|i: int| 0 <= i < d.len() implies (#[trigger] d[i]).key != key by {
            assert(es[i + 1].key != key);
        }
        lemma_sift_absent(p, Some(key_after(p, k, es[0])), d, key, max_seq);
        let rest = sifted(p, Some(key_after(p, k, es[0])), d);
        let out = sifted(p, st, es);
        assert(es[0].key != key);
        if emits(p, k, es[0]) {
            assert(out.skip(1) =~= rest);
            assert forall|i: int| 0 <= i < out.len() implies (#[trigger] out[i]).key != key by {
                if i > 0 {
                    assert(out[i] == rest[i - 1]);
                }
            }
        }
    }
}

/// A dropped key is gone from the rest of its run.
proof fn lemma_sift_dropping(p: KeepV, st: KeyV, es: Seq<Rec>, max_seq: u64)
    requires
        st.dropping,
        key_sorted(es),
        es.len() > 0 ==> lex_le(st.key, es[0].key),
    ensures
        first_at(sifted(p, Some(st), es), st.key, max_seq) is None,
    decreases es.len(),
{
    if es.len() > 0 {
        let d = es.skip(1);
        lemma_sorted_tail(es);
        if es[0].key == st.key {
            lemma_sift_dropping(p, st, d, max_seq);
        } else {
            assert(absent(es, st.key)) by {
                assert forall|i: int| 0 <= i < es.len() implies (#[trigger] es[i]).key != st.key by {
                    assert(lex_le(es[0].key, es[i].key));
                    lemma_lex_total(st.key, es[0].key);
                    lemma_lex_lt_le(st.key, es[0].key, es[i].key);
                    lemma_lex_irreflexive(st.key);
                }
            }
            lemma_sift_absent(p, Some(st), es, st.key, max_seq);
        }
    }
}

proof fn lemma_sorted_tail(es: Seq<Rec>)
    requires
        key_sorted(es),
        es.len() > 0,
    ensures
        key_sorted(es.skip(1)),
        es.len() > 1 ==> lex_le(es[0].key, es.skip(1)[0].key),
{
    let d = es.skip(1);
    assert forall|x: int, y: int| 0 <= x <= y < d.len() implies #[trigger] lex_le(
        d[x].key,
        #[trigger] d[y].key,
    ) by {
        assert(lex_le(es[x + 1].key, es[y + 1].key));
    }
    if es.len() > 1 {
        assert(lex_le(es[0].key, es[1].key));
    }
}

/// What a read of `key` at threshold `t` finds before and after: the same
/// version (with a value past its purge tick read as a deletion), or a
/// deletion that is gone with its key.
pub open spec fn reads_alike(p: KeepV, was: Option<Rec>, is: Option<Rec>) -> bool {
    match was {
        None => is is None,
        Some(e) => is == Some(settled(p, e)) || (is is None && drops(p, e)),
    }
}

/// The snapshots are no older than the oldest one.
pub open spec fn keep_wf(p: KeepV) -> bool {
    forall|t: int| 0 <= t < p.snapshots.len() ==> #[trigger] p.snapshots[t] >= p.oldest_snapshot
}

proof fn lemma_sift_reads(p: KeepV, st: Option<KeyV>, es: Seq<Rec>, key: Seq<u8>, t: int)
    requires
        keep_wf(p),
        key_sorted(es),
        forall|i: int| 0 <= i < es.len() ==> !(#[trigger] es[i]).range_del,
        0 <= t <= p.snapshots.len(),
        st matches Some(k) ==> (k.key == key ==> !k.dropping && !served(p, k.low, t)),
    ensures
        reads_alike(
            p,
            first_at(es, key, threshold(p.snapshots, t)),
            first_at(sifted(p, st, es), key, threshold(p.snapshots, t)),
        ),
    decreases es.len(),
{
    let th = threshold(p.snapshots, t);
    if es.len() > 0 {
        let e = es[0];
        let k = key_at(p, st, e);
        let d = es.skip(1);
        let out = sifted(p, st, es);
        let after = key_after(p, k, e);
        let rest = sifted(p, Some(after), d);
        lemma_sorted_tail(es);
        assert forall|i: int| 0 <= i < d.len() implies !(#[trigger] d[i]).range_del by {
            assert(!es[i + 1].range_del);
        }
        assert(!es[0].range_del);
        if emits(p, k, e) {
            assert(out.skip(1) =~= rest);
            assert(out[0] == settled(p, e));
        }
        if e.key != key {
            lemma_sift_reads(p, Some(after), d, key, t);
        } else if k.dropping {
            assert(drops(p, e));
            assert(e.seq <= th);
            lemma_sift_dropping(p, k, d, th);
        } else if e.seq <= th {
            assert(!served(p, k.low, t));
            assert(wanted(p, k.low, e.seq));
            assert(visible_version(out, key, th, 0));
        } else {
            assert(!served(p, after.low, t));
            lemma_sift_reads(p, Some(after), d, key, t);
        }
    }
}

/// A merge preserves every read at the live view and at each snapshot.
pub proof fn law_merge_keeps_reads(p: KeepV, es: Seq<Rec>, key: Seq<u8>, t: int)
    requires
        keep_wf(p),
        key_sorted(es),
        forall|i: int| 0 <= i < es.len() ==> !(#[trigger] es[i]).range_del,
        0 <= t <= p.snapshots.len(),
    ensures
        reads_alike(
            p,
            first_at(es, key, threshold(p.snapshots, t)),
            first_at(sifted(p, None, es), key, threshold(p.snapshots, t)),
        ),
{
    lemma_sift_reads(p, None, es, key, t);
}

/// Emitted entries are entries, in key order, and no two of them are the
/// same version of a key: each is older than the one before it.
pub proof fn law_sift_keeps_order(p: KeepV, st: Option<KeyV>, es: Seq<Rec>)
    requires
        key_sorted(es),
    ensures
        key_sorted(sifted(p, st, es)),
        runs_newest_first(sifted(p, st, es)),
        forall|g: int|
            0 <= g < sifted(p, st, es).len() ==> settled_from(
                p,
                es,
                #[trigger] sifted(p, st, es)[g],
            ),
        st matches Some(k) ==> forall|g: int|
            0 <= g < sifted(p, st, es).len() && (#[trigger] sifted(p, st, es)[g]).key == k.key
                && es[0].key == k.key ==> (k.low matches Some(l) ==> sifted(p, st, es)[g].seq < l),
    decreases es.len(),
{
    let out = sifted(p, st, es);
    if es.len() > 0 {
        let e = es[0];
        let k = key_at(p, st, e);
        let d = es.skip(1);
        let rest = sifted(p, Some(key_after(p, k, e)), d);
        lemma_sorted_tail(es);
        let k1 = key_after(p, k, e);
        law_sift_keeps_order(p, Some(key_after(p, k, e)), d);
        assert forall|g: int| 0 <= g < rest.len() implies settled_from(p, es, #[trigger] rest[g])
            && lex_le(e.key, rest[g].key) && (e.key == rest[g].key ==> (k1.low matches Some(l) ==> rest[g].seq < l)) by {
            assert(settled_from(p, d, rest[g]));
            let h = choose|h: int| 0 <= h < d.len() && rest[g] == settled(p, #[trigger] d[h]);
            assert(rest[g] == settled(p, es[h + 1]));
            assert(lex_le(es[0].key, es[h + 1].key));
            if e.key == rest[g].key {
                // Everything between has the same key.
                assert(lex_le(es[1].key, es[h + 1].key));
                assert(lex_le(es[0].key, es[1].key));
                lemma_lex_total(es[0].key, es[1].key);
                if lex_lt(es[0].key, es[1].key) {
                    lemma_lex_lt_le(es[0].key, es[1].key, es[h + 1].key);
                    lemma_lex_irreflexive(e.key);
                }
                assert(d[0].key == e.key);
            }
        }
        if emits(p, k, e) {
            assert(out =~= seq![settled(p, e)] + rest);
            assert forall|g: int| 0 <= g < out.len() implies settled_from(p, es, #[trigger] out[g]) by {
                if g == 0 {
                    assert(out[0] == settled(p, es[0]));
                } else {
                    assert(out[g] == rest[g - 1]);
                }
            }
            assert forall|x: int, y: int| 0 <= x <= y < out.len() implies #[trigger] lex_le(
                out[x].key,
                #[trigger] out[y].key,
            ) by {
                if x > 0 {
                    assert(lex_le(rest[x - 1].key, rest[y - 1].key));
                } else if y > 0 {
                    assert(out[y] == rest[y - 1]);
                }
            }
            assert forall|x: int, y: int|
                #![trigger out[x], out[y]]
                0 <= x < y < out.len() && out[x].key == out[y].key implies out[x].seq
                > out[y].seq by {
                assert(out[y] == rest[y - 1]);
                if x > 0 {
                    assert(out[x] == rest[x - 1]);
                }
            }
        } else {
            assert(out == rest);
        }
    }
}

/// The entry is one of `es` as it is written.
pub open spec fn settled_from(p: KeepV, es: Seq<Rec>, e: Rec) -> bool {
    exists|h: int| 0 <= h < es.len() && e == settled(p, #[trigger] es[h])
}

} // verus!

//! Which versions a merge writes, version by version.

use vstd::prelude::*;

use super::sift::{
    drops, emits, key_after, key_at, served, settled, sifted, wanted, KeepV, KeyV,
};
use crate::bytes::{lemma_lex_total, lex_le, lex_lt};
use crate::memtable::{key_sorted, Rec};
use crate::model::threshold;

verus! {

/// The state is that of entry `i`'s key.
spec fn begun(st: Option<KeyV>, es: Seq<Rec>, i: int) -> bool {
    st matches Some(k) && k.key == es[i].key
}

/// Entry `f` is the first of its key.
spec fn leads(es: Seq<Rec>, f: int) -> bool {
    &&& 0 <= f < es.len()
    &&& forall|x: int| 0 <= x < f ==> (#[trigger] es[x]).key != es[f].key
}

/// The key of entry `i` is dropped whole.
spec fn gone(p: KeepV, st: Option<KeyV>, es: Seq<Rec>, i: int) -> bool {
    if begun(st, es, i) {
        st->0.dropping
    } else {
        exists|f: int|
            0 <= f <= i && #[trigger] leads(es, f) && es[f].key == es[i].key && drops(p, es[f])
    }
}

/// Entry `i` is the newest version for threshold `t`.
spec fn newest_at(p: KeepV, st: Option<KeyV>, es: Seq<Rec>, i: int, t: int) -> bool {
    &&& 0 <= t <= p.snapshots.len()
    &&& es[i].seq <= threshold(p.snapshots, t)
    &&& begun(st, es, i) ==> !served(p, st->0.low, t)
    &&& forall|x: int|
        0 <= x < i && (#[trigger] es[x]).key == es[i].key ==> es[x].seq > threshold(p.snapshots, t)
}

/// Entry `i` is written.
spec fn kept(p: KeepV, st: Option<KeyV>, es: Seq<Rec>, i: int) -> bool {
    &&& 0 <= i < es.len()
    &&& !gone(p, st, es, i)
    &&& exists|t: int| #[trigger] newest_at(p, st, es, i, t)
}

/// The first entry is written exactly when it is kept.
proof fn lemma_kept_first(p: KeepV, st: Option<KeyV>, es: Seq<Rec>)
    requires
        es.len() > 0,
    ensures
        kept(p, st, es, 0) == emits(p, key_at(p, st, es[0]), es[0]),
{
    let k = key_at(p, st, es[0]);
    assert(leads(es, 0));
    assert(gone(p, st, es, 0) == k.dropping) by {
        if !begun(st, es, 0) {
            if k.dropping {
                assert(leads(es, 0) && drops(p, es[0]));
            }
        }
    }
    if exists|t: int| #[trigger] newest_at(p, st, es, 0, t) {
        let t = choose|t: int| #[trigger] newest_at(p, st, es, 0, t);
        assert(es[0].seq <= threshold(p.snapshots, t) && !served(p, k.low, t));
    }
    if wanted(p, k.low, es[0].seq) {
        let t = choose|t: int|
            0 <= t <= p.snapshots.len() && es[0].seq <= #[trigger] threshold(p.snapshots, t)
                && !served(p, k.low, t);
        assert(newest_at(p, st, es, 0, t));
    }
}

/// A later entry is kept exactly when it is kept of the rest.
proof fn lemma_kept_next(p: KeepV, st: Option<KeyV>, es: Seq<Rec>, i: int)
    requires
        key_sorted(es),
        0 < i < es.len(),
        st matches Some(k) ==> lex_le(k.key, es[0].key),
    ensures
        kept(p, st, es, i) == kept(
            p,
            Some(key_after(p, key_at(p, st, es[0]), es[0])),
            es.skip(1),
            i - 1,
        ),
{
    let k = key_at(p, st, es[0]);
    let k1 = key_after(p, k, es[0]);
    let s1 = Some(k1);
    let d = es.skip(1);
    assert(d[i - 1] == es[i]);
    assert(lex_le(es[0].key, es[i].key));
    if es[i].key == es[0].key {
        assert(begun(s1, d, i - 1));
        assert(gone(p, st, es, i) == k.dropping) by {
            if !begun(st, es, i) {
                assert(leads(es, 0));
                if k.dropping {
                    assert(leads(es, 0) && drops(p, es[0]));
                }
                if gone(p, st, es, i) {
                    let f = choose|f: int|
                        0 <= f <= i && #[trigger] leads(es, f) && es[f].key == es[i].key && drops(
                            p,
                            es[f],
                        );
                    assert(f == 0);
                }
            }
        }
        if !k.dropping {
            assert forall|t: int| 0 <= t <= p.snapshots.len() implies (!served(p, k1.low, t)) == (
            !served(p, k.low, t) && es[0].seq > #[trigger] threshold(p.snapshots, t)) by {
                if !emits(p, k, es[0]) && es[0].seq <= threshold(p.snapshots, t) {
                    assert(served(p, k.low, t));
                }
            }
            assert forall|t: int| #[trigger]
                newest_at(p, st, es, i, t) == newest_at(p, s1, d, i - 1, t) by {
                if 0 <= t <= p.snapshots.len() {
                    let th = threshold(p.snapshots, t);
                    assert((!served(p, k1.low, t)) == (!served(p, k.low, t) && es[0].seq > th));
                    if newest_at(p, st, es, i, t) {
                        assert(es[0].seq > th);
                        assert forall|x: int|
                            0 <= x < i - 1 && (#[trigger] d[x]).key == d[i - 1].key implies d[x].seq
                            > th by {
                            assert(es[x + 1] == d[x]);
                        }
                    }
                    if newest_at(p, s1, d, i - 1, t) {
                        assert forall|x: int|
                            0 <= x < i && (#[trigger] es[x]).key == es[i].key implies es[x].seq
                            > th by {
                            if x > 0 {
                                assert(d[x - 1] == es[x]);
                            }
                        }
                    }
                }
            }
            if exists|t: int| #[trigger] newest_at(p, st, es, i, t) {
                let t = choose|t: int| #[trigger] newest_at(p, st, es, i, t);
                assert(newest_at(p, s1, d, i - 1, t));
            }
            if exists|t: int| #[trigger] newest_at(p, s1, d, i - 1, t) {
                let t = choose|t: int| #[trigger] newest_at(p, s1, d, i - 1, t);
                assert(newest_at(p, st, es, i, t));
            }
        }
    } else {
        lemma_lex_total(es[0].key, es[i].key);
        assert(!begun(s1, d, i - 1));
        assert(!begun(st, es, i)) by {
            if begun(st, es, i) {
                assert(lex_lt(es[0].key, st->0.key));
            }
        }
        if gone(p, st, es, i) {
            let f = choose|f: int|
                0 <= f <= i && #[trigger] leads(es, f) && es[f].key == es[i].key && drops(p, es[f]);
            assert(f > 0);
            assert(d[f - 1] == es[f]);
            assert(leads(d, f - 1)) by {
                assert forall|x: int| 0 <= x < f - 1 implies (#[trigger] d[x]).key != d[f
                    - 1].key by {
                    assert(es[x + 1] == d[x]);
                }
            }
        }
        if gone(p, s1, d, i - 1) {
            let f = choose|f: int|
                0 <= f <= i - 1 && #[trigger] leads(d, f) && d[f].key == d[i - 1].key && drops(
                    p,
                    d[f],
                );
            assert(es[f + 1] == d[f]);
            assert(leads(es, f + 1)) by {
                assert forall|x: int| 0 <= x < f + 1 implies (#[trigger] es[x]).key != es[f
                    + 1].key by {
                    if x > 0 {
                        assert(d[x - 1] == es[x]);
                    }
                }
            }
        }
        assert forall|t: int| #[trigger]
            newest_at(p, st, es, i, t) == newest_at(p, s1, d, i - 1, t) by {
            if newest_at(p, st, es, i, t) {
                assert forall|x: int|
                    0 <= x < i - 1 && (#[trigger] d[x]).key == d[i - 1].key implies d[x].seq
                    > threshold(p.snapshots, t) by {
                    assert(es[x + 1] == d[x]);
                }
            }
            if newest_at(p, s1, d, i - 1, t) {
                assert forall|x: int|
                    0 <= x < i && (#[trigger] es[x]).key == es[i].key implies es[x].seq
                    > threshold(p.snapshots, t) by {
                    if x > 0 {
                        assert(d[x - 1] == es[x]);
                    }
                }
            }
        }
        if exists|t: int| #[trigger] newest_at(p, st, es, i, t) {
            let t = choose|t: int| #[trigger] newest_at(p, st, es, i, t);
            assert(newest_at(p, s1, d, i - 1, t));
        }
        if exists|t: int| #[trigger] newest_at(p, s1, d, i - 1, t) {
            let t = choose|t: int| #[trigger] newest_at(p, s1, d, i - 1, t);
            assert(newest_at(p, st, es, i, t));
        }
    }
}

/// The written entry is a kept one.
spec fn from_kept(p: KeepV, st: Option<KeyV>, es: Seq<Rec>, o: Rec) -> bool {
    exists|i: int| #[trigger] kept(p, st, es, i) && o == settled(p, es[i])
}

/// What is written is what is kept.
proof fn lemma_sifted_kept(p: KeepV, st: Option<KeyV>, es: Seq<Rec>)
    requires
        key_sorted(es),
        st matches Some(k) ==> es.len() > 0 ==> lex_le(k.key, es[0].key),
    ensures
        forall|i: int| #[trigger]
            kept(p, st, es, i) ==> sifted(p, st, es).contains(settled(p, es[i])),
        forall|g: int|
            0 <= g < sifted(p, st, es).len() ==> from_kept(
                p,
                st,
                es,
                #[trigger] sifted(p, st, es)[g],
            ),
    decreases es.len(),
{
    if es.len() > 0 {
        let k = key_at(p, st, es[0]);
        let s1 = Some(key_after(p, k, es[0]));
        let d = es.skip(1);
        let out = sifted(p, st, es);
        let rest = sifted(p, s1, d);
        let n: int = if emits(p, k, es[0]) {
            1
        } else {
            0
        };
        assert(key_sorted(d)) by {
            assert forall|x: int, y: int| 0 <= x <= y < d.len() implies #[trigger] lex_le(
                d[x].key,
                #[trigger] d[y].key,
            ) by {
                assert(lex_le(es[x + 1].key, es[y + 1].key));
            }
        }
        if d.len() > 0 {
            assert(lex_le(es[0].key, es[1].key));
        }
        lemma_sifted_kept(p, s1, d);
        lemma_kept_first(p, st, es);
        assert(out.len() == rest.len() + n);
        assert forall|g: int| 0 <= g < rest.len() implies out[g + n] == #[trigger] rest[g] by {}
        assert forall|i: int| #[trigger] kept(p, st, es, i) implies out.contains(
            settled(p, es[i]),
        ) by {
            if i == 0 {
                assert(out[0] == settled(p, es[0]));
            } else {
                lemma_kept_next(p, st, es, i);
                assert(kept(p, s1, d, i - 1));
                assert(d[i - 1] == es[i]);
                let g = rest.index_of(settled(p, d[i - 1]));
                assert(out[g + n] == rest[g]);
            }
        }
        assert forall|g: int| 0 <= g < out.len() implies from_kept(
            p,
            st,
            es,
            #[trigger] out[g],
        ) by {
            if g < n {
                assert(kept(p, st, es, 0));
            } else {
                assert(out[g] == rest[g - n]);
                assert(from_kept(p, s1, d, rest[g - n]));
                let i = choose|i: int| #[trigger]
                    kept(p, s1, d, i) && rest[g - n] == settled(p, d[i]);
                lemma_kept_next(p, st, es, i + 1);
                assert(d[i] == es[i + 1]);
                assert(kept(p, st, es, i + 1));
            }
        }
    }
}

/// A purge leaves no expired value: whatever a merge writes is a deletion,
/// never expires, or expires after the purge tick.
pub proof fn law_purge_leaves_none(p: KeepV, es: Seq<Rec>, g: int)
    requires
        key_sorted(es),
        0 <= g < sifted(p, None, es).len(),
    ensures
        ({
            let o = sifted(p, None, es)[g];
            o.tombstone || o.expire_at == 0 || o.expire_at > p.purge_before
        }),
{
    lemma_sifted_kept(p, None, es);
    assert(from_kept(p, None, es, sifted(p, None, es)[g]));
    let i = choose|i: int| #[trigger]
        kept(p, None, es, i) && sifted(p, None, es)[g] == settled(p, es[i]);
}

/// A key that is gone leaves no trace at the bottom: where nothing below
/// the output holds the key, and its newest version is a deletion or a
/// value expired by the purge tick, older than every snapshot and than
/// everything outside the merge, no version of it is written.
pub proof fn law_dead_keys_dropped(p: KeepV, es: Seq<Rec>, f: int, g: int)
    requires
        key_sorted(es),
        0 <= f < es.len(),
        forall|x: int| 0 <= x < f ==> (#[trigger] es[x]).key != es[f].key,
        p.bottommost,
        es[f].tombstone || (es[f].expire_at != 0 && es[f].expire_at <= p.purge_before),
        es[f].seq < p.oldest_snapshot,
        es[f].seq < p.outside_min_seq,
        0 <= g < sifted(p, None, es).len(),
    ensures
        sifted(p, None, es)[g].key != es[f].key,
{
    lemma_sifted_kept(p, None, es);
    assert(from_kept(p, None, es, sifted(p, None, es)[g]));
    let i = choose|i: int| #[trigger]
        kept(p, None, es, i) && sifted(p, None, es)[g] == settled(p, es[i]);
    assert(leads(es, f));
    if es[i].key == es[f].key {
        assert(i >= f) by {
            if i < f {
                assert(es[i].key != es[f].key);
            }
        }
        assert(gone(p, None, es, i));
    }
}

/// Every version that a reader can see is written: entry `i` is the newest
/// of its key at the live view (`watermark` is the highest number) or at a
/// snapshot, and its key is not one to drop. A value not yet purged is
/// written as it is; one that expired by the purge tick, or a deletion, as
/// a deletion.
pub proof fn law_seen_versions_written(p: KeepV, es: Seq<Rec>, i: int, watermark: u64)
    requires
        key_sorted(es),
        0 <= i < es.len(),
        watermark == u64::MAX || p.snapshots.contains(watermark),
        es[i].seq <= watermark,
        forall|x: int|
            0 <= x < i && (#[trigger] es[x]).key == es[i].key ==> es[x].seq > watermark,
        forall|f: int|
            0 <= f <= i && (#[trigger] es[f]).key == es[i].key && (forall|x: int|
                0 <= x < f ==> (#[trigger] es[x]).key != es[f].key) ==> {
                ||| !p.bottommost
                ||| !es[f].tombstone && (es[f].expire_at == 0 || es[f].expire_at > p.purge_before)
                ||| es[f].seq >= p.oldest_snapshot
                ||| es[f].seq >= p.outside_min_seq
            },
    ensures
        ({
            let e = es[i];
            let out = sifted(p, None, es);
            if e.tombstone || (e.expire_at != 0 && e.expire_at <= p.purge_before) {
                out.contains(Rec { val: Seq::empty(), tombstone: true, expire_at: 0, ..e })
            } else {
                out.contains(e)
            }
        }),
{
    lemma_sifted_kept(p, None, es);
    let t: int = if watermark == u64::MAX {
        0
    } else {
        p.snapshots.index_of(watermark) + 1
    };
    assert(threshold(p.snapshots, t) == watermark);
    assert(newest_at(p, None, es, i, t));
    assert(!gone(p, None, es, i)) by {
        if gone(p, None, es, i) {
            let f = choose|f: int|
                0 <= f <= i && #[trigger] leads(es, f) && es[f].key == es[i].key && drops(
                    p,
                    es[f],
                );
            assert(es[f].key == es[i].key);
        }
    }
    assert(kept(p, None, es, i));
}

/// Nothing else is written: each entry written is an entry merged, the
/// newest of its key at the live view or at a snapshot, here entry `r.0` at
/// watermark `r.1`. So two versions of a key are both written only where a
/// snapshot lies between them.
pub proof fn law_unseen_versions_dropped(p: KeepV, es: Seq<Rec>, g: int) -> (r: (int, u64))
    requires
        key_sorted(es),
        0 <= g < sifted(p, None, es).len(),
    ensures
        ({
            let o = sifted(p, None, es)[g];
            let (i, watermark) = r;
            let e = es[i];
            &&& 0 <= i < es.len()
            &&& watermark == u64::MAX || p.snapshots.contains(watermark)
            &&& o.key == e.key
            &&& o.seq == e.seq
            &&& e.seq <= watermark
            &&& forall|x: int|
                0 <= x < i && (#[trigger] es[x]).key == e.key ==> es[x].seq > watermark
            &&& if e.tombstone || (e.expire_at != 0 && e.expire_at <= p.purge_before) {
                o.tombstone && o.val.len() == 0 && o.expire_at == 0
            } else {
                o == e
            }
        }),
{
    lemma_sifted_kept(p, None, es);
    assert(from_kept(p, None, es, sifted(p, None, es)[g]));
    let i = choose|i: int| #[trigger]
        kept(p, None, es, i) && sifted(p, None, es)[g] == settled(p, es[i]);
    let t = choose|t: int| #[trigger] newest_at(p, None, es, i, t);
    if t > 0 {
        assert(p.snapshots[t - 1] == threshold(p.snapshots, t));
    }
    (i, threshold(p.snapshots, t))
}

} // verus!

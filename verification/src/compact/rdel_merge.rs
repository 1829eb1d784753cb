//! Merging the inputs' range-tombstone sections.

use vstd::prelude::*;

use super::merge::{Input, COMPACTION_KMAX};
use crate::bytes::{
    bytes_eq, bytes_le, bytes_lt, lemma_lex_asymmetric, lemma_lex_irreflexive, lemma_lex_le_le,
    lemma_lex_le_lt, lemma_lex_lt_le, lemma_lex_total, lemma_lex_transitive, lex_le, lex_lt,
};
use crate::device::{same_blocks, same_outside, BlockDevice};
use crate::error::Error;
use crate::keys::KeyBound;
use crate::manifest::data_blocks_of;
use crate::manifest_format::TabV;
use crate::sstable::block::{rdel_block_count, rdel_parse_at, RdelEntry};
use crate::sstable::format::{
    law_rdel_block_reads_back, rdel_block, rdel_count, rdel_parse, rdels_in, rgroup_ok, RdelV,
    RDEL_TRAILER,
};
use crate::sstable::rdel::{rdel_shape, rpack, RdelCounter};
use crate::sstable::table::{flat_rdels, rdel_best, rdel_covers, section_on};

verus! {

// ---------------------------------------------------------------------
// What a section yields.

/// What reading a section on yields: tombstones, then the end or the block
/// that does not verify or parse.
#[verifier::ext_equal]
pub struct RStreamV {
    pub rs: Seq<RdelV>,
    pub fault: Option<u64>,
}

/// A tombstone before a stream.
pub open spec fn rbefore(e: RdelV, s: RStreamV) -> RStreamV {
    RStreamV { rs: seq![e] + s.rs, fault: s.fault }
}

/// A stream continued by another where it ends without a fault.
pub open spec fn rjoined(a: RStreamV, b: RStreamV) -> RStreamV {
    if a.fault is Some {
        a
    } else {
        RStreamV { rs: a.rs + b.rs, fault: b.fault }
    }
}

/// Nothing but a fault.
pub open spec fn rfailed(id: u64) -> RStreamV {
    RStreamV { rs: Seq::empty(), fault: Some(id) }
}

/// Nothing.
pub open spec fn rended() -> RStreamV {
    RStreamV { rs: Seq::empty(), fault: None }
}

/// `n` tombstones from the start of `s`, part of block `id`.
pub open spec fn rblock_stream(s: Seq<u8>, n: nat, id: u64, key_max: usize) -> RStreamV
    decreases n,
{
    if n == 0 {
        rended()
    } else {
        match rdel_parse(s) {
            None => rfailed(id),
            Some((e, len)) => if e.start.len() > key_max || e.end.len() > key_max {
                rfailed(id)
            } else {
                rbefore(e, rblock_stream(s.skip(len as int), (n - 1) as nat, id, key_max))
            },
        }
    }
}

/// The tombstones from byte `off` of block `block` on of a section of `n`
/// blocks from `first` on, `left` of them in that block (all that it counts
/// where `left` is 0).
pub open spec fn section_stream(
    c: Map<u64, Seq<u8>>,
    first: u64,
    n: u32,
    key_max: usize,
    block: int,
    off: int,
    left: nat,
) -> RStreamV
    decreases n - block,
{
    let id = first + block;
    if block >= n || block < 0 {
        rended()
    } else if id > u64::MAX {
        rfailed(first)
    } else {
        match rdel_count(c[id as u64]) {
            None => rfailed(id as u64),
            Some(count) => {
                let rest = section_stream(c, first, n, key_max, block + 1, 0, 0);
                if count == 0 {
                    rest
                } else {
                    rjoined(
                        rblock_stream(
                            c[id as u64].skip(off),
                            if left == 0 {
                                count
                            } else {
                                left
                            },
                            id as u64,
                            key_max,
                        ),
                        rest,
                    )
                }
            },
        }
    }
}

/// First block of a table's section; an impossible one for a malformed
/// reference.
pub open spec fn section_first(t: TabV) -> u64 {
    match data_blocks_of(t) {
        Some(d) => if t.first_block + d <= u64::MAX {
            (t.first_block + d) as u64
        } else {
            u64::MAX
        },
        None => u64::MAX,
    }
}

/// The tombstones of a table.
pub open spec fn rdel_stream(c: Map<u64, Seq<u8>>, t: TabV, key_max: usize) -> RStreamV {
    section_stream(c, section_first(t), t.rdel_blocks, key_max, 0, 0, 0)
}

/// What a block parses to is what it streams.
proof fn lemma_block_streams(s: Seq<u8>, n: nat, id: u64, key_max: usize)
    requires
        rdels_in(s, n) matches Some(rs) && rdels_within(rs, key_max),
    ensures
        rblock_stream(s, n, id, key_max) == (RStreamV { rs: rdels_in(s, n)->0, fault: None }),
        rdels_in(s, n)->0.len() == n,
    decreases n,
{
    let rs = rdels_in(s, n)->0;
    if n == 0 {
        assert(rs =~= Seq::<RdelV>::empty());
    } else {
        let (e, len) = rdel_parse(s)->0;
        let t = s.skip(len as int);
        let more = rdels_in(t, (n - 1) as nat)->0;
        assert(rs == seq![e] + more);
        assert(rdel_within(rs[0], key_max));
        assert forall|i: int| 0 <= i < more.len() implies rdel_within(#[trigger] more[i], key_max) by {
            assert(more[i] == rs[i + 1]);
        }
        lemma_block_streams(t, (n - 1) as nat, id, key_max);
    }
}

/// The tombstones of the first group come first.
proof fn lemma_flat_rdels_front(gs: Seq<Seq<RdelV>>)
    requires
        gs.len() > 0,
    ensures
        flat_rdels(gs) == gs[0] + flat_rdels(gs.skip(1)),
    decreases gs.len(),
{
    let d = gs.drop_last();
    if d.len() == 0 {
        assert(flat_rdels(d) =~= Seq::<RdelV>::empty());
        assert(gs.skip(1) =~= Seq::<Seq<RdelV>>::empty());
        assert(flat_rdels(gs) =~= gs[0] + flat_rdels(gs.skip(1)));
    } else {
        lemma_flat_rdels_front(d);
        assert(gs.skip(1).drop_last() =~= d.skip(1));
        assert(gs.skip(1).last() == gs.last());
        assert(flat_rdels(gs) =~= gs[0] + flat_rdels(gs.skip(1)));
    }
}

/// A written section streams its tombstones.
pub proof fn law_section_streams(
    c: Map<u64, Seq<u8>>,
    first: u64,
    gs: Seq<Seq<RdelV>>,
    block: int,
    key_max: usize,
    b: int,
)
    requires
        first + gs.len() <= u64::MAX,
        gs.len() <= u32::MAX,
        0 <= b <= gs.len(),
        forall|j: int| 0 <= j < gs.len() ==> rgroup_ok(#[trigger] gs[j], block),
        section_on(c, first as int, gs, block),
        rdels_within(flat_rdels(gs.skip(b)), key_max),
    ensures
        section_stream(c, first, gs.len() as u32, key_max, b, 0, 0) == (RStreamV {
            rs: flat_rdels(gs.skip(b)),
            fault: None,
        }),
    decreases gs.len() - b,
{
    let all = flat_rdels(gs.skip(b));
    if b == gs.len() {
        assert(gs.skip(b) =~= Seq::<Seq<RdelV>>::empty());
        assert(all =~= Seq::<RdelV>::empty());
    } else {
        let id = (first + b) as u64;
        let rs = gs[b];
        let rest = flat_rdels(gs.skip(b + 1));
        lemma_flat_rdels_front(gs.skip(b));
        assert(gs.skip(b).skip(1) =~= gs.skip(b + 1));
        assert(all == rs + rest);
        assert forall|i: int| 0 <= i < rest.len() implies rdel_within(#[trigger] rest[i], key_max) by {
            assert(rest[i] == all[rs.len() + i]);
        }
        assert forall|i: int| 0 <= i < rs.len() implies rdel_within(#[trigger] rs[i], key_max) by {
            assert(rs[i] == all[i]);
        }
        law_section_streams(c, first, gs, block, key_max, b + 1);
        assert(rgroup_ok(rs, block));
        law_rdel_block_reads_back(rs, block);
        assert(c[id] == rdel_block(gs[b], block));
        let n = rdel_count(c[id])->0;
        lemma_block_streams(c[id], n, id, key_max);
        assert(c[id].skip(0) =~= c[id]);
    }
}

/// Devices that agree on a section's blocks hold the same tombstones.
pub proof fn lemma_same_section(
    c0: Map<u64, Seq<u8>>,
    c1: Map<u64, Seq<u8>>,
    first: u64,
    n: u32,
    key_max: usize,
    block: int,
    off: int,
    left: nat,
)
    requires
        same_blocks(c0, c1, first as int, first + n),
    ensures
        section_stream(c0, first, n, key_max, block, off, left) == section_stream(
            c1,
            first,
            n,
            key_max,
            block,
            off,
            left,
        ),
    decreases n - block,
{
    if 0 <= block < n {
        lemma_same_section(c0, c1, first, n, key_max, block + 1, 0, 0);
        if first + block <= u64::MAX {
            assert(c0[(first + block) as u64] == c1[(first + block) as u64]);
        }
    }
}

/// The bounds keep within the key limit.
pub open spec fn rdel_within(e: RdelV, key_max: usize) -> bool {
    1 <= e.start.len() <= key_max && 1 <= e.end.len() <= key_max
}

/// All bounds keep within the key limit.
pub open spec fn rdels_within(rs: Seq<RdelV>, key_max: usize) -> bool {
    forall|i: int| 0 <= i < rs.len() ==> rdel_within(#[trigger] rs[i], key_max)
}

proof fn lemma_rblock_within(s: Seq<u8>, n: nat, id: u64, key_max: usize)
    ensures
        rdels_within(rblock_stream(s, n, id, key_max).rs, key_max),
    decreases n,
{
    if n > 0 {
        match rdel_parse(s) {
            None => {},
            Some((e, len)) => {
                lemma_rblock_within(s.skip(len as int), (n - 1) as nat, id, key_max);
                let rest = rblock_stream(s.skip(len as int), (n - 1) as nat, id, key_max).rs;
                let all = rblock_stream(s, n, id, key_max).rs;
                assert forall|i: int| 0 <= i < all.len() implies rdel_within(
                    #[trigger] all[i],
                    key_max,
                ) by {
                    if i > 0 {
                        assert(all[i] == rest[i - 1]);
                    }
                }
            },
        }
    }
}

/// Every tombstone of a section keeps within the key limit.
pub proof fn lemma_section_within(
    c: Map<u64, Seq<u8>>,
    first: u64,
    n: u32,
    key_max: usize,
    block: int,
    off: int,
    left: nat,
)
    ensures
        rdels_within(section_stream(c, first, n, key_max, block, off, left).rs, key_max),
    decreases n - block,
{
    if 0 <= block < n && first + block <= u64::MAX {
        let id = (first + block) as u64;
        lemma_section_within(c, first, n, key_max, block + 1, 0, 0);
        match rdel_count(c[id]) {
            None => {},
            Some(count) => {
                let m = if left == 0 {
                    count
                } else {
                    left
                };
                let a = rblock_stream(c[id].skip(off), m, id, key_max).rs;
                let b = section_stream(c, first, n, key_max, block + 1, 0, 0).rs;
                lemma_rblock_within(c[id].skip(off), m, id, key_max);
                let all = section_stream(c, first, n, key_max, block, off, left).rs;
                if count > 0 {
                    assert forall|i: int| 0 <= i < all.len() implies rdel_within(
                        #[trigger] all[i],
                        key_max,
                    ) by {
                        if i < a.len() {
                            assert(all[i] == a[i]);
                        } else {
                            assert(all[i] == b[i - a.len()]);
                        }
                    }
                }
            },
        }
    }
}

// ---------------------------------------------------------------------
// The order in which the inputs' tombstones surface.

/// Merge order: `start` ascending, `seq` descending.
pub open spec fn rless(a: RdelV, b: RdelV) -> bool {
    lex_lt(a.start, b.start) || (a.start == b.start && a.seq > b.seq)
}

/// `a` sorts no later than `b`.
pub open spec fn rle(a: RdelV, b: RdelV) -> bool {
    lex_lt(a.start, b.start) || (a.start == b.start && a.seq >= b.seq)
}

/// In merge order.
pub open spec fn rsorted(rs: Seq<RdelV>) -> bool {
    forall|i: int, j: int| 0 <= i <= j < rs.len() ==> #[trigger] rle(rs[i], rs[j])
}

/// The input cannot be read on.
pub open spec fn stuck(s: RStreamV) -> bool {
    s.rs.len() == 0 && s.fault is Some
}

/// The fault of the first input that cannot be read on.
pub open spec fn first_stuck(ss: Seq<RStreamV>) -> Option<u64>
    decreases ss.len(),
{
    if ss.len() == 0 {
        None
    } else if stuck(ss[0]) {
        ss[0].fault
    } else {
        first_stuck(ss.skip(1))
    }
}

/// Input `i` holds the tombstone that surfaces next.
pub open spec fn is_rpick(ss: Seq<RStreamV>, i: int) -> bool {
    &&& 0 <= i < ss.len()
    &&& ss[i].rs.len() > 0
    &&& forall|j: int|
        0 <= j < ss.len() && (#[trigger] ss[j]).rs.len() > 0 ==> rsurfaces(ss, i, j)
}

/// The head of input `i` surfaces no later than that of `j`.
pub open spec fn rsurfaces(ss: Seq<RStreamV>, i: int, j: int) -> bool {
    rless(ss[i].rs[0], ss[j].rs[0]) || (rle(ss[i].rs[0], ss[j].rs[0]) && i <= j)
}

/// No input has a tombstone left.
pub open spec fn rdrained(ss: Seq<RStreamV>) -> bool {
    forall|i: int| 0 <= i < ss.len() ==> (#[trigger] ss[i]).rs.len() == 0
}

/// Tombstones left in all inputs.
pub open spec fn rleft_in(ss: Seq<RStreamV>) -> nat
    decreases ss.len(),
{
    if ss.len() == 0 {
        0
    } else {
        rleft_in(ss.drop_last()) + ss.last().rs.len()
    }
}

/// The inputs after the head of input `i` surfaced.
pub open spec fn rpopped(ss: Seq<RStreamV>, i: int) -> Seq<RStreamV> {
    ss.update(i, RStreamV { rs: ss[i].rs.skip(1), fault: ss[i].fault })
}

pub proof fn lemma_rleft_popped(ss: Seq<RStreamV>, i: int)
    requires
        0 <= i < ss.len(),
        ss[i].rs.len() > 0,
    ensures
        rleft_in(ss) > 0,
        rleft_in(rpopped(ss, i)) == rleft_in(ss) - 1,
    decreases ss.len(),
{
    let d = ss.drop_last();
    if i == ss.len() - 1 {
        assert(rpopped(ss, i).drop_last() =~= d);
    } else {
        lemma_rleft_popped(d, i);
        assert(rpopped(ss, i).drop_last() =~= rpopped(d, i));
    }
}

/// The tombstones of all inputs in the order they surface, up to the first
/// fault that any input meets.
pub open spec fn rzipped(ss: Seq<RStreamV>) -> RStreamV
    decreases rleft_in(ss),
{
    if first_stuck(ss) is Some {
        rfailed(first_stuck(ss)->0)
    } else if exists|i: int| is_rpick(ss, i) {
        let i = choose|i: int| is_rpick(ss, i);
        proof {
            lemma_rleft_popped(ss, i);
        }
        rbefore(ss[i].rs[0], rzipped(rpopped(ss, i)))
    } else {
        rended()
    }
}

proof fn lemma_rpick_unique(ss: Seq<RStreamV>, i: int, j: int)
    requires
        is_rpick(ss, i),
        is_rpick(ss, j),
    ensures
        i == j,
{
    let a = ss[i].rs[0];
    let b = ss[j].rs[0];
    assert(rsurfaces(ss, i, j));
    assert(rsurfaces(ss, j, i));
    lemma_lex_irreflexive(a.start);
    if lex_lt(a.start, b.start) {
        lemma_lex_asymmetric(a.start, b.start);
    } else if lex_lt(b.start, a.start) {
        lemma_lex_asymmetric(b.start, a.start);
    }
}

/// One tombstone surfaces.
pub proof fn lemma_rzip_step(ss: Seq<RStreamV>, i: int)
    requires
        first_stuck(ss) is None,
        is_rpick(ss, i),
    ensures
        rzipped(ss) == rbefore(ss[i].rs[0], rzipped(rpopped(ss, i))),
{
    let j = choose|j: int| is_rpick(ss, j);
    lemma_rpick_unique(ss, i, j);
}

/// Drained inputs surface nothing.
pub proof fn lemma_rzip_end(ss: Seq<RStreamV>)
    requires
        first_stuck(ss) is None,
        rdrained(ss),
    ensures
        rzipped(ss) == rended(),
{
    if exists|i: int| is_rpick(ss, i) {
        let i = choose|i: int| is_rpick(ss, i);
        assert(ss[i].rs.len() == 0);
    }
}

// ---------------------------------------------------------------------
// Coalescing and dropping.

/// What tombstones may be dropped by.
pub struct ShadowV {
    /// Nothing below the output holds its keys.
    pub bottommost: bool,
    /// Oldest live snapshot (`u64::MAX` without any).
    pub oldest_snapshot: u64,
}

/// A merge between two emissions.
#[verifier::ext_equal]
pub struct FoldV {
    /// The tombstone being grown.
    pub pending: Option<RdelV>,
    /// The last emitted one.
    pub last: Option<RdelV>,
}

/// `e` continues the pending tombstone: the same delete, overlapping or
/// adjacent.
pub open spec fn continues(pending: Option<RdelV>, e: RdelV) -> bool {
    pending matches Some(p) && e.seq == p.seq && lex_le(e.start, p.end)
}

/// The pending tombstone grown by `e`.
pub open spec fn grown(p: RdelV, e: RdelV) -> RdelV {
    if lex_lt(p.end, e.end) {
        RdelV { end: e.end, ..p }
    } else {
        p
    }
}

/// `e` may be dropped: the last emitted tombstone names the same range and
/// every live reader sees it.
pub open spec fn shadowed(p: ShadowV, last: Option<RdelV>, e: RdelV) -> bool {
    &&& p.bottommost
    &&& e.seq < p.oldest_snapshot
    &&& last matches Some(l)
    &&& l.seq <= p.oldest_snapshot
    &&& l.start == e.start
    &&& l.end == e.end
}

/// `e` as the next pending tombstone, unless it is dropped.
pub open spec fn opened(p: ShadowV, last: Option<RdelV>, e: RdelV) -> Option<RdelV> {
    if shadowed(p, last, e) {
        None
    } else {
        Some(e)
    }
}

/// What is emitted of the surfacing tombstones.
pub open spec fn rmerged(p: ShadowV, st: FoldV, s: RStreamV) -> RStreamV
    decreases s.rs.len(),
{
    if s.rs.len() == 0 {
        match (s.fault, st.pending) {
            (Some(id), _) => rfailed(id),
            (None, Some(e)) => rbefore(e, rended()),
            (None, None) => rended(),
        }
    } else {
        let e = s.rs[0];
        let rest = RStreamV { rs: s.rs.skip(1), fault: s.fault };
        if continues(st.pending, e) {
            rmerged(p, FoldV { pending: Some(grown(st.pending->0, e)), ..st }, rest)
        } else {
            match st.pending {
                Some(q) => rbefore(
                    q,
                    rmerged(p, FoldV { pending: opened(p, Some(q), e), last: Some(q) }, rest),
                ),
                None => rmerged(
                    p,
                    FoldV { pending: opened(p, st.last, e), last: st.last },
                    rest,
                ),
            }
        }
    }
}

/// The whole merge of sections.
pub open spec fn rdel_output(p: ShadowV, ss: Seq<RStreamV>) -> RStreamV {
    rmerged(p, FoldV { pending: None, last: None }, rzipped(ss))
}

/// Away from the bottom, no output tombstone runs on into the next one of
/// the same delete: they were joined.
pub proof fn law_rdels_joined(p: ShadowV, ss: Seq<RStreamV>, i: int)
    requires
        !p.bottommost,
        0 <= i < rdel_output(p, ss).rs.len() - 1,
    ensures
        ({
            let out = rdel_output(p, ss).rs;
            out[i].seq != out[i + 1].seq || lex_lt(out[i].end, out[i + 1].start)
        }),
{
    lemma_joined(p, FoldV { pending: None, last: None }, rzipped(ss), i);
}

proof fn lemma_joined(p: ShadowV, st: FoldV, s: RStreamV, i: int)
    requires
        !p.bottommost,
    ensures
        st.pending is Some && rmerged(p, st, s).rs.len() > 0 ==> rmerged(p, st, s).rs[0].seq
            == st.pending->0.seq && rmerged(p, st, s).rs[0].start == st.pending->0.start,
        0 <= i < rmerged(p, st, s).rs.len() - 1 ==> ({
            let out = rmerged(p, st, s).rs;
            out[i].seq != out[i + 1].seq || lex_lt(out[i].end, out[i + 1].start)
        }),
    decreases s.rs.len(),
{
    if s.rs.len() > 0 {
        let e = s.rs[0];
        let rest = RStreamV { rs: s.rs.skip(1), fault: s.fault };
        if continues(st.pending, e) {
            lemma_joined(p, FoldV { pending: Some(grown(st.pending->0, e)), ..st }, rest, i);
        } else {
            match st.pending {
                Some(q) => {
                    let nx = FoldV { pending: opened(p, Some(q), e), last: Some(q) };
                    lemma_joined(p, nx, rest, i - 1);
                    let tail = rmerged(p, nx, rest).rs;
                    let out = rmerged(p, st, s).rs;
                    assert(out =~= seq![q] + tail);
                    if 0 < i < out.len() - 1 {
                        assert(out[i] == tail[i - 1] && out[i + 1] == tail[i]);
                    }
                    if i == 0 && out.len() > 1 {
                        assert(out[0] == q && out[1] == tail[0]);
                    }
                },
                None => {
                    lemma_joined(
                        p,
                        FoldV { pending: opened(p, st.last, e), last: st.last },
                        rest,
                        i,
                    );
                },
            }
        }
    }
}

/// At the bottom an older delete of the very range of the one before is of
/// no consequence where every live reader sees the newer: the output is
/// what it would be without it.
pub proof fn law_rdels_shed(
    p: ShadowV,
    last: Option<RdelV>,
    r: RdelV,
    e: RdelV,
    rest: Seq<RdelV>,
)
    requires
        p.bottommost,
        e.seq < r.seq <= p.oldest_snapshot,
        e.start == r.start,
        e.end == r.end,
        rest.len() > 0 ==> rest[0].seq != r.seq || lex_lt(r.end, rest[0].start),
    ensures
        rmerged(
            p,
            FoldV { pending: Some(r), last },
            RStreamV { rs: seq![e] + rest, fault: None },
        ) == rmerged(p, FoldV { pending: Some(r), last }, RStreamV { rs: rest, fault: None }),
{
    let s = RStreamV { rs: seq![e] + rest, fault: None };
    let t = RStreamV { rs: rest, fault: None };
    assert(s.rs.skip(1) =~= rest);
    assert(s.rs[0] == e);
    reveal_with_fuel(rmerged, 3);
    let none = FoldV { pending: None, last: Some(r) };
    assert(rmerged(p, FoldV { pending: Some(r), last }, s) == rbefore(r, rmerged(p, none, t)));
}

/// A delete that a live reader may not see yet, or not at the bottom, is
/// kept: only such older deletes of the same range are shed.
pub proof fn law_rdels_kept(p: ShadowV, r: RdelV, e: RdelV)
    requires
        e.seq != r.seq || lex_lt(r.end, e.start),
        !p.bottommost || e.seq >= p.oldest_snapshot || r.seq > p.oldest_snapshot || e.start
            != r.start || e.end != r.end,
    ensures
        rmerged(
            p,
            FoldV { pending: Some(r), last: None },
            RStreamV { rs: seq![e], fault: None },
        ).rs == seq![r, e],
{
    reveal_with_fuel(rmerged, 3);
    assert(seq![e].skip(1) =~= Seq::<RdelV>::empty());
    assert(seq![r] + (seq![e] + Seq::<RdelV>::empty()) =~= seq![r, e]);
    assert(rmerged(
        p,
        FoldV { pending: Some(r), last: None },
        RStreamV { rs: seq![e], fault: None },
    ).rs =~= seq![r, e]);
}

/// The higher of two optional sequences.
pub open spec fn omax(a: Option<u64>, b: Option<u64>) -> Option<u64> {
    match (a, b) {
        (None, _) => b,
        (_, None) => a,
        (Some(x), Some(y)) => if x < y {
            b
        } else {
            a
        },
    }
}

/// The sequence of a tombstone that covers `key` at `max_seq`.
pub open spec fn covered(e: RdelV, key: Seq<u8>, max_seq: u64) -> Option<u64> {
    if e.seq <= max_seq && lex_le(e.start, key) && lex_lt(key, e.end) {
        Some(e.seq)
    } else {
        None
    }
}

/// The highest sequence of the tombstones that cover `key` at `max_seq`.
pub open spec fn cover_of(rs: Seq<RdelV>, key: Seq<u8>, max_seq: u64) -> Option<u64>
    decreases rs.len(),
{
    if rs.len() == 0 {
        None
    } else {
        omax(covered(rs[0], key, max_seq), cover_of(rs.skip(1), key, max_seq))
    }
}

/// A key is covered exactly where a range tombstone in view holds it, from
/// its start on and short of its end, and the newest such one counts.
pub proof fn law_cover_is_newest(rs: Seq<RdelV>, key: Seq<u8>, max_seq: u64, i: int)
    requires
        0 <= i < rs.len(),
        rs[i].seq <= max_seq,
        lex_le(rs[i].start, key),
        lex_lt(key, rs[i].end),
    ensures
        cover_of(rs, key, max_seq) matches Some(s) && s >= rs[i].seq,
    decreases i,
{
    if i > 0 {
        assert(rs.skip(1)[i - 1] == rs[i]);
        law_cover_is_newest(rs.skip(1), key, max_seq, i - 1);
    }
}

/// A cover is that of a range tombstone in view that holds the key.
pub proof fn law_cover_has_source(rs: Seq<RdelV>, key: Seq<u8>, max_seq: u64) -> (i: int)
    requires
        cover_of(rs, key, max_seq) is Some,
    ensures
        0 <= i < rs.len(),
        rs[i].seq == cover_of(rs, key, max_seq)->0,
        rs[i].seq <= max_seq,
        lex_le(rs[i].start, key),
        lex_lt(key, rs[i].end),
    decreases rs.len(),
{
    if covered(rs[0], key, max_seq) == cover_of(rs, key, max_seq) {
        0
    } else {
        let k = law_cover_has_source(rs.skip(1), key, max_seq);
        k + 1
    }
}

/// [`cover_of`] is the best covering sequence.
pub proof fn lemma_cover_of(rs: Seq<RdelV>, key: Seq<u8>, max_seq: u64)
    ensures
        rdel_best(rs, key, max_seq, cover_of(rs, key, max_seq)),
    decreases rs.len(),
{
    if rs.len() > 0 {
        let d = rs.skip(1);
        lemma_cover_of(d, key, max_seq);
        let b = cover_of(d, key, max_seq);
        assert forall|i: int| #[trigger] rdel_covers(rs, key, max_seq, i) implies (i == 0
            && covered(rs[0], key, max_seq) == Some(rs[0].seq)) || (i > 0 && rdel_covers(
            d,
            key,
            max_seq,
            i - 1,
        )) by {}
        if b is Some {
            let i = choose|i: int| #[trigger] rdel_covers(d, key, max_seq, i) && d[i].seq == b->0;
            assert(rdel_covers(rs, key, max_seq, i + 1));
        }
        if covered(rs[0], key, max_seq) is Some {
            assert(rdel_covers(rs, key, max_seq, 0));
        }
    }
}

/// Highest covering sequence of an optional tombstone.
spec fn ocovered(e: Option<RdelV>, key: Seq<u8>, max_seq: u64) -> Option<u64> {
    match e {
        None => None,
        Some(x) => covered(x, key, max_seq),
    }
}

/// An optional tombstone sorts before all.
spec fn leads(e: Option<RdelV>, rs: Seq<RdelV>) -> bool {
    e matches Some(x) ==> ahead(x, rs)
}

/// A tombstone sorts before all.
spec fn ahead(x: RdelV, rs: Seq<RdelV>) -> bool {
    forall|i: int| 0 <= i < rs.len() ==> #[trigger] rle(x, rs[i])
}

proof fn lemma_rmerged_cover(p: ShadowV, st: FoldV, s: RStreamV, key: Seq<u8>, max_seq: u64)
    requires
        s.fault is None,
        rsorted(s.rs),
        leads(st.pending, s.rs),
        leads(st.last, s.rs),
        p.bottommost ==> max_seq >= p.oldest_snapshot,
    ensures
        omax(ocovered(st.last, key, max_seq), cover_of(rmerged(p, st, s).rs, key, max_seq)) == omax(
            ocovered(st.last, key, max_seq),
            omax(ocovered(st.pending, key, max_seq), cover_of(s.rs, key, max_seq)),
        ),
        rmerged(p, st, s).fault is None,
    decreases s.rs.len(),
{
    let out = rmerged(p, st, s).rs;
    if s.rs.len() == 0 {
        if st.pending is Some {
            assert(out =~= seq![st.pending->0]);
            assert(out.skip(1) =~= Seq::<RdelV>::empty());
            reveal_with_fuel(cover_of, 2);
        }
    } else {
        let e = s.rs[0];
        let rest = RStreamV { rs: s.rs.skip(1), fault: s.fault };
        assert forall|i: int, j: int| 0 <= i <= j < rest.rs.len() implies #[trigger] rle(
            rest.rs[i],
            rest.rs[j],
        ) by {
            assert(rle(s.rs[i + 1], s.rs[j + 1]));
        }
        assert forall|i: int| 0 <= i < rest.rs.len() implies #[trigger] rle(e, rest.rs[i]) by {
            assert(rle(s.rs[0], s.rs[i + 1]));
        }
        if st.pending is Some {
            assert(rle(st.pending->0, s.rs[0]));
            assert forall|i: int| 0 <= i < rest.rs.len() implies #[trigger] rle(
                st.pending->0,
                rest.rs[i],
            ) by {
                assert(rle(st.pending->0, s.rs[i + 1]));
            }
        }
        if st.last is Some {
            assert(rle(st.last->0, s.rs[0]));
            assert forall|i: int| 0 <= i < rest.rs.len() implies #[trigger] rle(
                st.last->0,
                rest.rs[i],
            ) by {
                assert(rle(st.last->0, s.rs[i + 1]));
            }
        }
        if continues(st.pending, e) {
            let q = st.pending->0;
            let g = grown(q, e);
            let next = FoldV { pending: Some(g), ..st };
            assert forall|i: int| 0 <= i < rest.rs.len() implies #[trigger] rle(g, rest.rs[i]) by {
                assert(rle(q, rest.rs[i]));
            }
            lemma_rmerged_cover(p, next, rest, key, max_seq);
            lemma_grown_cover(q, e, key, max_seq);
        } else {
            let last = match st.pending {
                Some(q) => Some(q),
                None => st.last,
            };
            let next = FoldV { pending: opened(p, last, e), last };
            lemma_rmerged_cover(p, next, rest, key, max_seq);
            if shadowed(p, last, e) {
                assert(rle(last->0, e));
                lemma_lex_irreflexive(e.start);
            }
            if st.pending is Some {
                let tail = rmerged(p, next, rest).rs;
                assert(out =~= seq![st.pending->0] + tail);
                assert(out.skip(1) =~= tail);
            }
        }
    }
}

/// The union of two overlapping or adjacent ranges covers what they cover.
proof fn lemma_grown_cover(q: RdelV, e: RdelV, key: Seq<u8>, max_seq: u64)
    requires
        e.seq == q.seq,
        lex_le(e.start, q.end),
        rle(q, e),
    ensures
        covered(grown(q, e), key, max_seq) == omax(
            covered(q, key, max_seq),
            covered(e, key, max_seq),
        ),
{
    lemma_lex_irreflexive(q.start);
    if lex_lt(q.start, e.start) {
        lemma_lex_asymmetric(q.start, e.start);
    }
    if lex_le(e.start, key) {
        lemma_lex_le_le(q.start, e.start, key);
    }
    if lex_lt(q.end, e.end) {
        if lex_lt(key, q.end) {
            lemma_lex_transitive(key, q.end, e.end);
        } else {
            lemma_lex_le_le(e.start, q.end, key);
        }
    } else if lex_lt(key, e.end) {
        lemma_lex_lt_le(key, e.end, q.end);
    }
}

/// The highest sequence of the inputs' tombstones that cover `key` at
/// `max_seq`.
pub open spec fn cover_in(ss: Seq<RStreamV>, key: Seq<u8>, max_seq: u64) -> Option<u64>
    decreases ss.len(),
{
    if ss.len() == 0 {
        None
    } else {
        omax(cover_in(ss.drop_last(), key, max_seq), cover_of(ss.last().rs, key, max_seq))
    }
}

proof fn lemma_cover_popped(ss: Seq<RStreamV>, i: int, key: Seq<u8>, max_seq: u64)
    requires
        0 <= i < ss.len(),
        ss[i].rs.len() > 0,
    ensures
        cover_in(ss, key, max_seq) == omax(
            covered(ss[i].rs[0], key, max_seq),
            cover_in(rpopped(ss, i), key, max_seq),
        ),
    decreases ss.len(),
{
    let d = ss.drop_last();
    if i == ss.len() - 1 {
        assert(rpopped(ss, i).drop_last() =~= d);
    } else {
        lemma_cover_popped(d, i, key, max_seq);
        assert(rpopped(ss, i).drop_last() =~= rpopped(d, i));
    }
}

proof fn lemma_cover_drained(ss: Seq<RStreamV>, key: Seq<u8>, max_seq: u64)
    requires
        rdrained(ss),
    ensures
        cover_in(ss, key, max_seq) is None,
    decreases ss.len(),
{
    if ss.len() > 0 {
        let d = ss.drop_last();
        assert forall|i: int| 0 <= i < d.len() implies (#[trigger] d[i]).rs.len() == 0 by {
            assert(ss[i].rs.len() == 0);
        }
        lemma_cover_drained(d, key, max_seq);
        assert(ss[ss.len() - 1].rs.len() == 0);
    }
}

proof fn lemma_rpick_exists(ss: Seq<RStreamV>) -> (r: int)
    requires
        !rdrained(ss),
    ensures
        is_rpick(ss, r),
    decreases ss.len(),
{
    let d = ss.drop_last();
    let l = ss.len() - 1;
    if rdrained(d) {
        let k = choose|k: int| 0 <= k < ss.len() && (#[trigger] ss[k]).rs.len() != 0;
        if k < l {
            assert(d[k].rs.len() == 0);
        }
        assert forall|j: int| 0 <= j < ss.len() && (#[trigger] ss[j]).rs.len() > 0 implies rsurfaces(
            ss,
            l,
            j,
        ) by {
            if j < l {
                assert(d[j].rs.len() == 0);
            }
        }
        l
    } else {
        let m = lemma_rpick_exists(d);
        assert(d[m] == ss[m]);
        if ss[l].rs.len() == 0 || rle(ss[m].rs[0], ss[l].rs[0]) {
            assert forall|j: int|
                0 <= j < ss.len() && (#[trigger] ss[j]).rs.len() > 0 implies rsurfaces(
                ss,
                m,
                j,
            ) by {
                if j < l {
                    assert(d[j] == ss[j]);
                    assert(rsurfaces(d, m, j));
                }
            }
            m
        } else {
            let a = ss[m].rs[0];
            let b = ss[l].rs[0];
            lemma_lex_total(a.start, b.start);
            assert forall|j: int|
                0 <= j < ss.len() && (#[trigger] ss[j]).rs.len() > 0 implies rsurfaces(
                ss,
                l,
                j,
            ) by {
                if j < l {
                    assert(d[j] == ss[j]);
                    assert(rsurfaces(d, m, j));
                    let e = ss[j].rs[0];
                    if lex_lt(b.start, a.start) && lex_lt(a.start, e.start) {
                        lemma_lex_transitive(b.start, a.start, e.start);
                    }
                }
            }
            l
        }
    }
}

/// Every input is in merge order and can be read to its end.
pub open spec fn sections_sorted(ss: Seq<RStreamV>) -> bool {
    forall|i: int| 0 <= i < ss.len() ==> section_sorted(#[trigger] ss[i])
}

/// The input is in merge order and can be read to its end.
pub open spec fn section_sorted(s: RStreamV) -> bool {
    rsorted(s.rs) && s.fault is None
}

proof fn lemma_none_stuck(ss: Seq<RStreamV>)
    requires
        sections_sorted(ss),
    ensures
        first_stuck(ss) is None,
    decreases ss.len(),
{
    if ss.len() > 0 {
        assert(section_sorted(ss[0]));
        let d = ss.skip(1);
        assert forall|i: int| 0 <= i < d.len() implies section_sorted(#[trigger] d[i]) by {
            assert(section_sorted(ss[i + 1]));
        }
        lemma_none_stuck(d);
    }
}

/// Some input holds the tombstone.
spec fn ramong(ss: Seq<RStreamV>, e: RdelV) -> bool {
    exists|i: int, g: int|
        0 <= i < ss.len() && 0 <= g < ss[i].rs.len() && #[trigger] ss[i].rs[g] == e
}

proof fn lemma_rzip_order(ss: Seq<RStreamV>, key: Seq<u8>, max_seq: u64)
    requires
        sections_sorted(ss),
    ensures
        rzipped(ss).fault is None,
        rsorted(rzipped(ss).rs),
        cover_of(rzipped(ss).rs, key, max_seq) == cover_in(ss, key, max_seq),
        forall|g: int| 0 <= g < rzipped(ss).rs.len() ==> ramong(ss, #[trigger] rzipped(ss).rs[g]),
    decreases rleft_in(ss),
{
    let out = rzipped(ss).rs;
    lemma_none_stuck(ss);
    if rdrained(ss) {
        lemma_rzip_end(ss);
        lemma_cover_drained(ss, key, max_seq);
    } else {
        let i = lemma_rpick_exists(ss);
        lemma_rzip_step(ss, i);
        lemma_rleft_popped(ss, i);
        lemma_cover_popped(ss, i, key, max_seq);
        let tt = rpopped(ss, i);
        let e = ss[i].rs[0];
        assert forall|k: int| 0 <= k < tt.len() implies section_sorted(#[trigger] tt[k]) by {
            assert(section_sorted(ss[k]));
            if k == i {
                assert forall|x: int, y: int| 0 <= x <= y < tt[i].rs.len() implies #[trigger] rle(
                    tt[i].rs[x],
                    tt[i].rs[y],
                ) by {
                    assert(rle(ss[i].rs[x + 1], ss[i].rs[y + 1]));
                }
            }
        }
        lemma_rzip_order(tt, key, max_seq);
        let rest = rzipped(tt).rs;
        assert(out =~= seq![e] + rest);
        assert(out.skip(1) =~= rest);
        assert forall|g: int| 0 <= g < rest.len() implies #[trigger] rle(e, rest[g]) && ramong(
            ss,
            rest[g],
        ) by {
            assert(ramong(tt, rest[g]));
            let (j, h) = choose|j: int, h: int|
                0 <= j < tt.len() && 0 <= h < tt[j].rs.len() && #[trigger] tt[j].rs[h] == rest[g];
            let h2 = if j == i {
                h + 1
            } else {
                h
            };
            assert(ss[j].rs[h2] == rest[g]);
            assert(section_sorted(ss[j]));
            assert(rle(ss[j].rs[0], ss[j].rs[h2]));
            assert(rsurfaces(ss, i, j));
            let f = ss[j].rs[0];
            if lex_lt(e.start, f.start) && lex_lt(f.start, rest[g].start) {
                lemma_lex_transitive(e.start, f.start, rest[g].start);
            }
        }
        assert forall|x: int, y: int| 0 <= x <= y < out.len() implies #[trigger] rle(
            out[x],
            out[y],
        ) by {
            if x > 0 {
                assert(rle(rest[x - 1], rest[y - 1]));
            } else if y > 0 {
                assert(rle(e, rest[y - 1]));
            }
        }
        assert forall|g: int| 0 <= g < out.len() implies ramong(ss, #[trigger] out[g]) by {
            if g > 0 {
                assert(out[g] == rest[g - 1]);
                assert(rle(e, rest[g - 1]));
            } else {
                assert(ss[i].rs[0] == out[0]);
            }
        }
    }
}

proof fn lemma_rmerged_order(p: ShadowV, st: FoldV, s: RStreamV)
    requires
        rsorted(s.rs),
        leads(st.pending, s.rs),
        st.pending is Some && st.last is Some ==> rle(st.last->0, st.pending->0),
        leads(st.last, s.rs),
    ensures
        rsorted(rmerged(p, st, s).rs),
        leads(st.last, rmerged(p, st, s).rs),
        forall|x: RdelV|
            ahead(x, s.rs) && (st.pending matches Some(q) ==> rle(x, q)) ==> #[trigger] ahead(x, rmerged(p, st, s).rs,
            ),
    decreases s.rs.len(),
{
    let out = rmerged(p, st, s).rs;
    if s.rs.len() > 0 {
        let e = s.rs[0];
        let rest = RStreamV { rs: s.rs.skip(1), fault: s.fault };
        assert forall|i: int, j: int| 0 <= i <= j < rest.rs.len() implies #[trigger] rle(
            rest.rs[i],
            rest.rs[j],
        ) by {
            assert(rle(s.rs[i + 1], s.rs[j + 1]));
        }
        assert forall|x: RdelV| #[trigger] ahead(x, s.rs) implies ahead(x, rest.rs)
            && rle(x, e) by {
            assert(rle(x, s.rs[0]));
            assert forall|i: int| 0 <= i < rest.rs.len() implies #[trigger] rle(x, rest.rs[i]) by {
                assert(rle(x, s.rs[i + 1]));
            }
        }
        assert(ahead(e, s.rs)) by {
            assert forall|i: int| 0 <= i < s.rs.len() implies #[trigger] rle(e, s.rs[i]) by {
                assert(rle(s.rs[0], s.rs[i]));
            }
        }
        if continues(st.pending, e) {
            let q = st.pending->0;
            let g = grown(q, e);
            let next = FoldV { pending: Some(g), ..st };
            assert(ahead(q, s.rs));
            assert forall|i: int| 0 <= i < rest.rs.len() implies #[trigger] rle(g, rest.rs[i]) by {
                assert(rle(q, rest.rs[i]));
            }
            lemma_rmerged_order(p, next, rest);
            assert forall|x: RdelV|
                ahead(x, s.rs) && (st.pending matches Some(q2) ==> rle(x, q2)) implies #[trigger] ahead(x, out,
            ) by {
                assert(rle(x, g));
            }
        } else {
            let last = match st.pending {
                Some(q) => Some(q),
                None => st.last,
            };
            let next = FoldV { pending: opened(p, last, e), last };
            if last is Some {
                assert(ahead(last->0, s.rs));
            }
            lemma_rmerged_order(p, next, rest);
            let tail = rmerged(p, next, rest).rs;
            if st.pending is Some {
                let q = st.pending->0;
                assert(out =~= seq![q] + tail);
                assert(ahead(q, tail));
                assert forall|x: int, y: int| 0 <= x <= y < out.len() implies #[trigger] rle(
                    out[x],
                    out[y],
                ) by {
                    if x > 0 {
                        assert(rle(tail[x - 1], tail[y - 1]));
                    } else if y > 0 {
                        assert(rle(q, tail[y - 1]));
                    }
                }
                assert forall|x: RdelV|
                    ahead(x, s.rs) && (st.pending matches Some(q2) ==> rle(
                        x,
                        q2,
                    )) implies #[trigger] ahead(x, out) by {
                    assert(ahead(x, tail));
                    assert forall|i: int| 0 <= i < out.len() implies #[trigger] rle(x, out[i]) by {
                        if i > 0 {
                            assert(rle(x, tail[i - 1]));
                        }
                    }
                }
                if st.last is Some {
                    assert(ahead(st.last->0, out));
                }
            } else {
                assert(out == tail);
                assert forall|x: RdelV|
                    ahead(x, s.rs) && (st.pending matches Some(q2) ==> rle(
                        x,
                        q2,
                    )) implies #[trigger] ahead(x, out) by {
                    assert(ahead(x, tail));
                }
            }
        }
    } else if s.fault is None && st.pending is Some {
        assert(out =~= seq![st.pending->0]);
    }
}

/// Merging range tombstones preserves which deletes every live reader sees:
/// for every key, and every snapshot at or above the oldest one, the newest
/// covering tombstone keeps its sequence. The merged section is in merge
/// order.
pub proof fn law_rdel_merge_keeps_cover(
    p: ShadowV,
    ss: Seq<RStreamV>,
    key: Seq<u8>,
    max_seq: u64,
)
    requires
        sections_sorted(ss),
        p.bottommost ==> max_seq >= p.oldest_snapshot,
    ensures
        rdel_output(p, ss).fault is None,
        rsorted(rdel_output(p, ss).rs),
        cover_of(rdel_output(p, ss).rs, key, max_seq) == cover_in(ss, key, max_seq),
{
    lemma_rzip_order(ss, key, max_seq);
    let st = FoldV { pending: None, last: None };
    lemma_rmerged_cover(p, st, rzipped(ss), key, max_seq);
    lemma_rmerged_order(p, st, rzipped(ss));
}

/// What successive calls yield of a merge: `left` is what the merge has left
/// before each call and at the end, `out` what the calls gave, and the last
/// one found nothing more.
pub open spec fn yields(left: Seq<RStreamV>, out: Seq<RdelV>) -> bool {
    &&& left.len() == out.len() + 1
    &&& left.last() == rended()
    &&& forall|i: int| 0 <= i < out.len() ==> #[trigger] yields_at(left, out, i)
}

/// Call `i` yields the next tombstone.
pub open spec fn yields_at(left: Seq<RStreamV>, out: Seq<RdelV>, i: int) -> bool {
    &&& left[i].rs.len() > 0
    &&& out[i] == left[i].rs[0]
    &&& left[i + 1] == (RStreamV { rs: left[i].rs.skip(1), fault: left[i].fault })
}

/// A merge read to its end yields all that it had.
proof fn lemma_yields_all(left: Seq<RStreamV>, out: Seq<RdelV>)
    requires
        yields(left, out),
    ensures
        out == left[0].rs,
    decreases out.len(),
{
    if out.len() == 0 {
        assert(out =~= left[0].rs);
    } else {
        let rest = left.skip(1);
        let tail = out.skip(1);
        assert(yields_at(left, out, 0));
        assert(rest.last() == left.last());
        assert forall|i: int| 0 <= i < tail.len() implies #[trigger] yields_at(rest, tail, i) by {
            assert(yields_at(left, out, i + 1));
        }
        lemma_yields_all(rest, tail);
        assert(out =~= seq![out[0]] + tail);
        assert(left[0].rs =~= seq![left[0].rs[0]] + left[0].rs.skip(1));
    }
}

/// What the calls of a merge yield, taken together, is in merge order and
/// covers every key, at every view that can still be read, as the merged
/// sections did.
pub proof fn law_rdel_calls_keep_cover(
    p: ShadowV,
    ss: Seq<RStreamV>,
    left: Seq<RStreamV>,
    out: Seq<RdelV>,
    key: Seq<u8>,
    max_seq: u64,
)
    requires
        sections_sorted(ss),
        p.bottommost ==> max_seq >= p.oldest_snapshot,
        yields(left, out),
        left[0] == rdel_output(p, ss),
    ensures
        rsorted(out),
        cover_of(out, key, max_seq) == cover_in(ss, key, max_seq),
{
    lemma_yields_all(left, out);
    law_rdel_merge_keeps_cover(p, ss, key, max_seq);
}

proof fn lemma_rmerged_below(p: ShadowV, st: FoldV, s: RStreamV, m: u64)
    requires
        forall|i: int| 0 <= i < s.rs.len() ==> (#[trigger] s.rs[i]).seq <= m,
        st.pending matches Some(q) ==> q.seq <= m,
    ensures
        forall|i: int|
            0 <= i < rmerged(p, st, s).rs.len() ==> (#[trigger] rmerged(p, st, s).rs[i]).seq <= m,
    decreases s.rs.len(),
{
    if s.rs.len() > 0 {
        let e = s.rs[0];
        let rest = RStreamV { rs: s.rs.skip(1), fault: s.fault };
        assert(e.seq <= m);
        assert forall|i: int| 0 <= i < rest.rs.len() implies (#[trigger] rest.rs[i]).seq <= m by {
            assert(rest.rs[i] == s.rs[i + 1]);
        }
        if continues(st.pending, e) {
            lemma_rmerged_below(
                p,
                FoldV { pending: Some(grown(st.pending->0, e)), ..st },
                rest,
                m,
            );
        } else {
            match st.pending {
                Some(q) => {
                    lemma_rmerged_below(
                        p,
                        FoldV { pending: opened(p, Some(q), e), last: Some(q) },
                        rest,
                        m,
                    );
                },
                None => {
                    lemma_rmerged_below(
                        p,
                        FoldV { pending: opened(p, st.last, e), last: st.last },
                        rest,
                        m,
                    );
                },
            }
        }
    }
}

/// No tombstone of the output is newer than those of the inputs.
pub proof fn lemma_output_below(p: ShadowV, ss: Seq<RStreamV>, m: u64)
    requires
        sections_sorted(ss),
        forall|i: int, g: int|
            0 <= i < ss.len() && 0 <= g < ss[i].rs.len() ==> (#[trigger] ss[i].rs[g]).seq <= m,
    ensures
        forall|i: int|
            0 <= i < rdel_output(p, ss).rs.len() ==> (#[trigger] rdel_output(p, ss).rs[i]).seq
                <= m,
{
    let z = rzipped(ss);
    lemma_rzip_order(ss, Seq::empty(), 0);
    assert forall|i: int| 0 <= i < z.rs.len() implies (#[trigger] z.rs[i]).seq <= m by {
        assert(ramong(ss, z.rs[i]));
    }
    lemma_rmerged_below(p, FoldV { pending: None, last: None }, z, m);
}

/// The tombstone runs forward within `[lo, hi]`.
pub open spec fn rdel_in(lo: Seq<u8>, hi: Seq<u8>, r: RdelV) -> bool {
    lex_le(lo, r.start) && lex_le(r.end, hi) && lex_le(r.start, r.end)
}

proof fn lemma_rmerged_in(p: ShadowV, st: FoldV, s: RStreamV, lo: Seq<u8>, hi: Seq<u8>)
    requires
        forall|i: int| 0 <= i < s.rs.len() ==> rdel_in(lo, hi, #[trigger] s.rs[i]),
        st.pending matches Some(q) ==> rdel_in(lo, hi, q),
    ensures
        forall|i: int|
            0 <= i < rmerged(p, st, s).rs.len() ==> rdel_in(
                lo,
                hi,
                #[trigger] rmerged(p, st, s).rs[i],
            ),
    decreases s.rs.len(),
{
    if s.rs.len() > 0 {
        let e = s.rs[0];
        let rest = RStreamV { rs: s.rs.skip(1), fault: s.fault };
        assert(rdel_in(lo, hi, e));
        assert forall|i: int| 0 <= i < rest.rs.len() implies rdel_in(
            lo,
            hi,
            #[trigger] rest.rs[i],
        ) by {
            assert(rest.rs[i] == s.rs[i + 1]);
        }
        if continues(st.pending, e) {
            let q = st.pending->0;
            if lex_lt(q.end, e.end) {
                crate::bytes::lemma_lex_le_lt(q.start, q.end, e.end);
                crate::bytes::lemma_lex_asymmetric(q.start, e.end);
            }
            lemma_rmerged_in(
                p,
                FoldV { pending: Some(grown(st.pending->0, e)), ..st },
                rest,
                lo,
                hi,
            );
        } else {
            match st.pending {
                Some(q) => {
                    lemma_rmerged_in(
                        p,
                        FoldV { pending: opened(p, Some(q), e), last: Some(q) },
                        rest,
                        lo,
                        hi,
                    );
                },
                None => {
                    lemma_rmerged_in(
                        p,
                        FoldV { pending: opened(p, st.last, e), last: st.last },
                        rest,
                        lo,
                        hi,
                    );
                },
            }
        }
    }
}

/// The output's tombstones run forward within the range of the inputs'.
pub proof fn lemma_output_in(p: ShadowV, ss: Seq<RStreamV>, lo: Seq<u8>, hi: Seq<u8>)
    requires
        sections_sorted(ss),
        forall|i: int, g: int|
            0 <= i < ss.len() && 0 <= g < ss[i].rs.len() ==> rdel_in(
                lo,
                hi,
                #[trigger] ss[i].rs[g],
            ),
    ensures
        forall|i: int|
            0 <= i < rdel_output(p, ss).rs.len() ==> rdel_in(
                lo,
                hi,
                #[trigger] rdel_output(p, ss).rs[i],
            ),
{
    let z = rzipped(ss);
    lemma_rzip_order(ss, Seq::empty(), 0);
    assert forall|i: int| 0 <= i < z.rs.len() implies rdel_in(lo, hi, #[trigger] z.rs[i]) by {
        assert(ramong(ss, z.rs[i]));
    }
    lemma_rmerged_in(p, FoldV { pending: None, last: None }, z, lo, hi);
}

// ---------------------------------------------------------------------
// The merger.

/// An owned range tombstone: heads and the pending entry move by value
/// without allocation.
#[derive(Clone, Copy)]
struct OwnedRdel<const KEY_MAX: usize> {
    start: KeyBound<KEY_MAX>,
    end: KeyBound<KEY_MAX>,
    seq: u64,
}

impl<const KEY_MAX: usize> OwnedRdel<KEY_MAX> {
    spec fn wf(&self) -> bool {
        self.start.wf() && self.end.wf()
    }

    spec fn rdel(&self) -> RdelV {
        RdelV { start: self.start@, end: self.end@, seq: self.seq }
    }

    fn empty() -> (r: Self)
        ensures
            r.wf(),
    {
        OwnedRdel { start: KeyBound::empty(), end: KeyBound::empty(), seq: 0 }
    }

    /// True when `other` names the identical `(start, end)` range.
    fn same_range(&self, other: &Self) -> (r: bool)
        requires
            self.wf(),
            other.wf(),
        ensures
            r == (self.rdel().start == other.rdel().start && self.rdel().end == other.rdel().end),
    {
        bytes_eq(self.start.as_slice(), other.start.as_slice()) && bytes_eq(
            self.end.as_slice(),
            other.end.as_slice(),
        )
    }
}

/// Merge order: `start` ascending, `seq` descending.
fn rdel_entry_less<const KEY_MAX: usize>(
    a: &OwnedRdel<KEY_MAX>,
    b: &OwnedRdel<KEY_MAX>,
) -> (r: bool)
    requires
        a.wf(),
        b.wf(),
    ensures
        r == rless(a.rdel(), b.rdel()),
{
    if bytes_lt(a.start.as_slice(), b.start.as_slice()) {
        true
    } else {
        bytes_eq(a.start.as_slice(), b.start.as_slice()) && a.seq > b.seq
    }
}

/// One merge input: its section location, read position, and copied head
/// entry.
#[derive(Clone, Copy)]
struct RdelHead<const KEY_MAX: usize> {
    first_block: u64,
    rdel_blocks: u32,
    // Index of the block holding the next entry to parse.
    block: u32,
    // Byte offset of that entry within its block.
    off: usize,
    // Entries left in `block` from `off` onward. Zero exactly when `block`
    // is fresh (just advanced to) or the section is exhausted.
    remaining: usize,
    has_head: bool,
    entry: OwnedRdel<KEY_MAX>,
}

impl<const KEY_MAX: usize> RdelHead<KEY_MAX> {
    fn new(first_block: u64, rdel_blocks: u32) -> (r: Self)
        ensures
            r.entry.wf(),
            r.remaining == 0 ==> r.off == 0,
            forall|c: Map<u64, Seq<u8>>| #[trigger]
                r.stream(c) == section_stream(c, first_block, rdel_blocks, KEY_MAX, 0, 0, 0),
            r.first_block == first_block,
            r.rdel_blocks == rdel_blocks,
            !r.has_head,
    {
        RdelHead {
            first_block,
            rdel_blocks,
            block: 0,
            off: 0,
            remaining: 0,
            has_head: false,
            entry: OwnedRdel::empty(),
        }
    }

    /// What follows the head.
    spec fn rest(&self, c: Map<u64, Seq<u8>>) -> RStreamV {
        section_stream(
            c,
            self.first_block,
            self.rdel_blocks,
            KEY_MAX,
            self.block as int,
            self.off as int,
            self.remaining as nat,
        )
    }

    /// What the input has yet to yield, its head first.
    spec fn stream(&self, c: Map<u64, Seq<u8>>) -> RStreamV {
        if self.has_head {
            rbefore(self.entry.rdel(), self.rest(c))
        } else {
            self.rest(c)
        }
    }

    /// The position lies in a block of `block` bytes.
    spec fn wf(&self, block: int) -> bool {
        &&& self.entry.wf()
        &&& self.remaining == 0 ==> self.off == 0
        &&& self.off <= block
        &&& self.has_head ==> rdel_within(self.entry.rdel(), KEY_MAX)
    }

    /// Parses the next entry of the section into the copied head slot. A
    /// no-op when the head is already filled or the section is exhausted.
    /// The block is re-read on every call (`raw` is shared across inputs),
    /// which is sound because sealed blocks are immutable.
    fn fill<D: BlockDevice, const BLOCK: usize>(&mut self, device: &D, raw: &mut [u8; BLOCK]) -> (r:
        Result<(), Error<D::Error>>)
        requires
            D::BLOCK == BLOCK,
            BLOCK >= 6,
            old(self).wf(BLOCK as int),
        ensures
            final(self).wf(BLOCK as int),
            final(self).first_block == old(self).first_block,
            final(self).rdel_blocks == old(self).rdel_blocks,
            ({
                let s = old(self).stream(device.content());
                match r {
                    Ok(()) => {
                        &&& final(self).stream(device.content()) == s
                        &&& final(self).has_head || s == rended()
                    },
                    Err(e) => e is Device || (stuck(s) && e == (Error::<D::Error>::CorruptBlock {
                        id: s.fault->0,
                    })),
                }
            }),
    {
        if self.has_head {
            return Ok(());
        }
        let ghost c = device.content();
        let ghost s = self.stream(c);
        while self.block < self.rdel_blocks
            invariant
                D::BLOCK == BLOCK,
                BLOCK >= 6,
                !self.has_head,
                self.wf(BLOCK as int),
                self.first_block == old(self).first_block,
                self.rdel_blocks == old(self).rdel_blocks,
                c == device.content(),
                s == old(self).stream(c),
                self.stream(c) == s,
            decreases self.rdel_blocks - self.block,
        {
            let id: u64 = match self.first_block.checked_add(self.block as u64) {
                None => {
                    return Err(Error::CorruptBlock { id: self.first_block });
                },
                Some(id) => id,
            };
            match device.read_block(id, raw) {
                Ok(()) => {},
                Err(e) => {
                    return Err(Error::Device(e));
                },
            }
            let count: usize = match rdel_block_count::<D::Error, BLOCK>(raw, id) {
                Ok(n) => n,
                Err(e) => {
                    return Err(e);
                },
            };
            if count == 0 {
                // Defensive: the writer never seals an empty rdel block, but
                // a zero-count block must not stall the merge.
                self.block = self.block + 1;
                self.off = 0;
                self.remaining = 0;
            } else {
                let left: usize = if self.remaining == 0 {
                    count
                } else {
                    self.remaining
                };
                let ghost b = raw@.skip(self.off as int);
                let ghost tail = section_stream(
                    c,
                    self.first_block,
                    self.rdel_blocks,
                    KEY_MAX,
                    self.block + 1,
                    0,
                    0,
                );
                let (start, end, seq, next): (KeyBound<KEY_MAX>, KeyBound<KEY_MAX>, u64, usize) =
                    match rdel_parse_at(raw, self.off) {
                    None => {
                        return Err(Error::CorruptBlock { id });
                    },
                    Some((e, next)) => match (
                        KeyBound::from_slice(e.start),
                        KeyBound::from_slice(e.end),
                    ) {
                        (Some(start), Some(end)) => (start, end, e.seq, next),
                        _ => {
                            proof {
                                lemma_rdel_bounds(b);
                            }
                            return Err(Error::CorruptBlock { id });
                        },
                    },
                };
                self.entry = OwnedRdel { start, end, seq };
                self.has_head = true;
                proof {
                    let e = self.entry.rdel();
                    let len = next - self.off;
                    assert(b.skip(len) =~= raw@.skip(next as int));
                    let part = rblock_stream(b.skip(len), (left - 1) as nat, id, KEY_MAX);
                    assert(rjoined(rbefore(e, part), tail) =~= rbefore(e, rjoined(part, tail)));
                    assert(rjoined(rended(), tail) =~= tail);
                }
                self.off = next;
                self.remaining = left - 1;
                if self.remaining == 0 {
                    self.block = self.block + 1;
                    self.off = 0;
                }
                return Ok(());
            }
        }
        Ok(())
    }
}

/// Bounds of a parsed tombstone fit two bytes.
proof fn lemma_rdel_bounds(s: Seq<u8>)
    ensures
        rdel_parse(s) matches Some((e, n)) ==> e.start.len() <= 0xFFFF && e.end.len() <= 0xFFFF,
{
    if s.len() >= 12 {
        crate::bytes::lemma_pow256();
        crate::bytes::lemma_le_value_bound(s.subrange(0, 2));
        crate::bytes::lemma_le_value_bound(s.subrange(2, 4));
    }
}

/// Streams the compaction inputs' range-tombstone sections into one sorted
/// output section: a bounded k-way merge over the inputs' stored rdel
/// sections, each already sorted by `(start asc, seq desc)`.
///
/// Per input the merge keeps a read position plus one copied head entry
/// (the shared `raw` block buffer is reused across inputs). Each step takes
/// the minimum head, coalesces it into the pending entry when it shares the
/// pending sequence and overlaps or abuts it (same `seq` means the same
/// logical delete, so the union is exact; this also folds exact
/// duplicates), and otherwise emits the pending entry and starts a new one.
/// Differently-sequenced overlaps are kept as-is: correct, merely
/// uncompacted. A tombstone is dropped only when the output is bottommost,
/// its `seq` is below the oldest snapshot, and the last emitted one shadows
/// it.
///
/// The merge is a pull iterator: [`next_merged`](RdelMerger::next_merged)
/// advances past one emitted entry and reports whether the merger's
/// [`current_entry`](RdelMerger::current_entry) is valid. Driving it twice
/// over the immutable input sections yields the identical entry sequence,
/// which is how compaction counts the section's exact block budget before
/// reserving output space (see [`count_rdel_merge`]).
///
/// Entry parsing is bounded by each block's stored count: the count/CRC
/// trailer is never parsed as entries.
pub struct RdelMerger<const KEY_MAX: usize> {
    heads: [RdelHead<KEY_MAX>; COMPACTION_KMAX],
    n: usize,
    pending: OwnedRdel<KEY_MAX>,
    has_pending: bool,
    current: OwnedRdel<KEY_MAX>,
    // The last emitted tombstone. An older identical-range tombstone may be
    // dropped only when this shadows it with `seq <= oldest_snapshot`:
    // otherwise a live snapshot between the two sequences would lose its
    // covering tombstone and resurrect covered keys.
    last_emitted: Option<OwnedRdel<KEY_MAX>>,
    bottommost: bool,
    oldest_snapshot: u64,
}

/// The sections of a job's inputs.
pub open spec fn input_sections<const KEY_MAX: usize>(
    c: Map<u64, Seq<u8>>,
    inputs: Seq<Input<KEY_MAX>>,
) -> Seq<RStreamV> {
    Seq::new(inputs.len(), |i: int| rdel_stream(c, inputs[i].tref@, KEY_MAX))
}

impl<const KEY_MAX: usize> RdelMerger<KEY_MAX> {
    /// Positions lie in blocks of `block` bytes.
    pub closed spec fn wf(&self, block: int) -> bool {
        &&& self.n <= COMPACTION_KMAX
        &&& forall|i: int| 0 <= i < self.n ==> (#[trigger] self.heads@[i]).wf(block)
        &&& self.pending.wf()
        &&& self.has_pending ==> rdel_within(self.pending.rdel(), KEY_MAX)
        &&& self.current.wf()
        &&& self.last_emitted matches Some(l) ==> l.wf()
    }

    /// What each input has yet to yield.
    pub closed spec fn streams(&self, c: Map<u64, Seq<u8>>) -> Seq<RStreamV> {
        Seq::new(self.n as nat, |i: int| self.heads@[i].stream(c))
    }

    /// What tombstones may be dropped by.
    pub closed spec fn shadow(&self) -> ShadowV {
        ShadowV { bottommost: self.bottommost, oldest_snapshot: self.oldest_snapshot }
    }

    /// The merge between two emissions.
    pub closed spec fn fold(&self) -> FoldV {
        FoldV {
            pending: if self.has_pending {
                Some(self.pending.rdel())
            } else {
                None
            },
            last: match self.last_emitted {
                Some(l) => Some(l.rdel()),
                None => None,
            },
        }
    }

    /// What the merge has yet to emit.
    pub open spec fn output(&self, c: Map<u64, Seq<u8>>) -> RStreamV {
        rmerged(self.shadow(), self.fold(), rzipped(self.streams(c)))
    }

    /// The entry last emitted.
    pub closed spec fn current(&self) -> RdelV {
        self.current.rdel()
    }

    /// First block and block count of each section.
    pub closed spec fn places(&self) -> Seq<(u64, u32)> {
        Seq::new(self.n as nat, |i: int| (self.heads@[i].first_block, self.heads@[i].rdel_blocks))
    }

    /// The current entry can be handed out.
    pub closed spec fn holds_entry(&self) -> bool {
        self.current.wf()
    }

    /// A device that keeps the sections keeps what is yet to be emitted.
    pub proof fn lemma_same_output(
        &self,
        c0: Map<u64, Seq<u8>>,
        c1: Map<u64, Seq<u8>>,
        lo: int,
        hi: int,
    )
        requires
            places_outside(self.places(), lo, hi),
            same_outside(c0, c1, lo, hi),
        ensures
            self.output(c0) == self.output(c1),
    {
        assert forall|i: int| 0 <= i < self.n implies self.heads@[i].stream(c0)
            == #[trigger] self.heads@[i].stream(c1) by {
            let h = self.heads@[i];
            assert(self.places()[i] == (h.first_block, h.rdel_blocks));
            lemma_same_section(
                c0,
                c1,
                h.first_block,
                h.rdel_blocks,
                KEY_MAX,
                h.block as int,
                h.off as int,
                h.remaining as nat,
            );
        }
        assert(self.streams(c0) =~= self.streams(c1));
    }

    /// Merges `inputs`' range-tombstone sections. `bottommost` and
    /// `oldest_snapshot` gate the tombstone drop rule.
    #[must_use]
    pub fn new(inputs: &[Input<KEY_MAX>], bottommost: bool, oldest_snapshot: u64) -> (r: Self)
        requires
            inputs@.len() <= COMPACTION_KMAX,
        ensures
            forall|block: int| block >= 0 ==> #[trigger] r.wf(block),
            forall|c: Map<u64, Seq<u8>>| #[trigger]
                r.output(c) == rdel_output(
                    ShadowV { bottommost, oldest_snapshot },
                    input_sections(c, inputs@),
                ),
            r.places() == section_places(inputs@),
            r.holds_entry(),
    {
        let mut heads: [RdelHead<KEY_MAX>; COMPACTION_KMAX] = [RdelHead::new(0, 0);COMPACTION_KMAX];
        let n: usize = inputs.len();
        let mut i: usize = 0;
        while i < n
            invariant
                n == inputs@.len(),
                n <= COMPACTION_KMAX,
                i <= n,
                forall|j: int|
                    0 <= j < i ==> {
                        let h = #[trigger] heads@[j];
                        let t = inputs@[j].tref@;
                        &&& h.entry.wf()
                        &&& h.off == 0
                        &&& h.remaining == 0
                        &&& h.block == 0
                        &&& !h.has_head
                        &&& h.first_block == section_first(t)
                        &&& h.rdel_blocks == t.rdel_blocks
                    },
            decreases n - i,
        {
            // A malformed ref (no room for its sections) reads from an
            // impossible base, which surfaces as `CorruptBlock`.
            let first: u64 = match inputs[i].tref.rdel_first() {
                Some(f) => f,
                None => u64::MAX,
            };
            heads[i] = RdelHead {
                first_block: first,
                rdel_blocks: inputs[i].tref.rdel_blocks,
                block: 0,
                off: 0,
                remaining: 0,
                has_head: false,
                entry: OwnedRdel::empty(),
            };
            i = i + 1;
        }
        let r = RdelMerger {
            heads,
            n,
            pending: OwnedRdel::empty(),
            has_pending: false,
            current: OwnedRdel::empty(),
            last_emitted: None,
            bottommost,
            oldest_snapshot,
        };
        proof {
            assert forall|c: Map<u64, Seq<u8>>| #[trigger]
                r.output(c) == rdel_output(
                    ShadowV { bottommost, oldest_snapshot },
                    input_sections(c, inputs@),
                ) by {
                assert(r.streams(c) =~= input_sections(c, inputs@));
                assert(r.fold() == (FoldV { pending: None, last: None }));
            }
            assert(r.places() =~= section_places(inputs@));
        }
        r
    }

    /// Index of the minimum valid head under the merge order, if any.
    fn min_head(&self, Ghost(c): Ghost<Map<u64, Seq<u8>>>, Ghost(block): Ghost<int>) -> (r: Option<
        usize,
    >)
        requires
            self.wf(block),
            forall|i: int|
                0 <= i < self.n ==> (#[trigger] self.heads@[i]).has_head || self.heads@[i].stream(c)
                    == rended(),
        ensures
            match r {
                None => rdrained(self.streams(c)),
                Some(m) => m < self.n && self.heads@[m as int].has_head && is_rpick(
                    self.streams(c),
                    m as int,
                ),
            },
    {
        let mut m: usize = COMPACTION_KMAX;
        let mut i: usize = 0;
        while i < self.n
            invariant
                self.wf(block),
                i <= self.n,
                self.n <= COMPACTION_KMAX,
                m < i || m == COMPACTION_KMAX,
                m == COMPACTION_KMAX ==> forall|j: int|
                    0 <= j < i ==> !(#[trigger] self.heads@[j]).has_head,
                m < COMPACTION_KMAX ==> self.heads@[m as int].has_head && forall|j: int|
                    0 <= j < i && (#[trigger] self.heads@[j]).has_head ==> {
                        let a = self.heads@[m as int].entry.rdel();
                        let b = self.heads@[j].entry.rdel();
                        rless(a, b) || (rle(a, b) && m <= j)
                    },
            decreases self.n - i,
        {
            if self.heads[i].has_head {
                if m == COMPACTION_KMAX {
                    m = i;
                } else if rdel_entry_less(&self.heads[i].entry, &self.heads[m].entry) {
                    proof {
                        let a = self.heads@[i as int].entry.rdel();
                        let b = self.heads@[m as int].entry.rdel();
                        assert forall|j: int|
                            0 <= j < i + 1 && (#[trigger] self.heads@[j]).has_head implies {
                            let e = self.heads@[j].entry.rdel();
                            rless(a, e) || (rle(a, e) && i <= j)
                        } by {
                            let e = self.heads@[j].entry.rdel();
                            if j < i && lex_lt(a.start, b.start) && lex_lt(b.start, e.start) {
                                lemma_lex_transitive(a.start, b.start, e.start);
                            }
                        }
                    }
                    m = i;
                } else {
                    proof {
                        let a = self.heads@[m as int].entry.rdel();
                        let b = self.heads@[i as int].entry.rdel();
                        lemma_lex_total(a.start, b.start);
                    }
                }
            }
            i = i + 1;
        }
        proof {
            let ss = self.streams(c);
            assert forall|j: int| 0 <= j < ss.len() implies ((#[trigger] ss[j]).rs.len() > 0
                <==> self.heads@[j].has_head) && (self.heads@[j].has_head ==> ss[j].rs[0]
                == self.heads@[j].entry.rdel()) by {
                let h = self.heads@[j];
                assert(ss[j] == h.stream(c));
            }
            if m < COMPACTION_KMAX {
                assert(ss[m as int].rs.len() > 0);
                assert forall|j: int| 0 <= j < ss.len() && (#[trigger] ss[j]).rs.len() > 0 implies rsurfaces(
                    ss,
                    m as int,
                    j,
                ) by {
                    assert(self.heads@[j].has_head);
                }
            } else {
                assert forall|j: int| 0 <= j < ss.len() implies (#[trigger] ss[j]).rs.len() == 0 by {
                    assert(!self.heads@[j].has_head);
                }
            }
        }
        if m == COMPACTION_KMAX {
            None
        } else {
            Some(m)
        }
    }

    /// Fills every empty head.
    fn fill_heads<D: BlockDevice, const BLOCK: usize>(
        &mut self,
        device: &D,
        raw: &mut [u8; BLOCK],
    ) -> (r: Result<(), Error<D::Error>>)
        requires
            D::BLOCK == BLOCK,
            BLOCK >= 6,
            old(self).wf(BLOCK as int),
        ensures
            final(self).wf(BLOCK as int),
            *final(self) == (RdelMerger { heads: final(self).heads, ..*old(self) }),
            final(self).places() == old(self).places(),
            match r {
                Ok(()) => {
                    let c = device.content();
                    &&& final(self).streams(c) == old(self).streams(c)
                    &&& first_stuck(old(self).streams(c)) is None
                    &&& forall|i: int|
                        0 <= i < final(self).n ==> (#[trigger] final(self).heads@[i]).has_head
                            || final(self).heads@[i].stream(c) == rended()
                },
                Err(e) => e is Device || (first_stuck(old(self).streams(device.content())) matches Some(
                    id,
                ) && e == (Error::<D::Error>::CorruptBlock { id })),
            },
    {
        let ghost c = device.content();
        let ghost ss = self.streams(c);
        let mut i: usize = 0;
        assert(ss.skip(0) =~= ss);
        while i < self.n
            invariant
                D::BLOCK == BLOCK,
                BLOCK >= 6,
                c == device.content(),
                ss == old(self).streams(c),
                self.wf(BLOCK as int),
                *self == (RdelMerger { heads: self.heads, ..*old(self) }),
                i <= self.n,
                self.n <= COMPACTION_KMAX,
                ss.len() == self.n,
                self.streams(c) == ss,
                first_stuck(ss) == first_stuck(ss.skip(i as int)),
                self.places() == old(self).places(),
                forall|j: int|
                    0 <= j < i ==> (#[trigger] self.heads@[j]).has_head || self.heads@[j].stream(c)
                        == rended(),
            decreases self.n - i,
        {
            let ghost h0 = self.heads@[i as int];
            assert(ss[i as int] == h0.stream(c));
            proof {
                assert(ss.skip(i as int)[0] == ss[i as int]);
                assert(ss.skip(i as int).skip(1) =~= ss.skip(i + 1));
            }
            match self.heads[i].fill(device, raw) {
                Ok(()) => {},
                Err(e) => {
                    assert(self.places() =~= old(self).places());
                    return Err(e);
                },
            }
            assert(self.streams(c) =~= ss);
            assert(self.places() =~= old(self).places());
            i = i + 1;
        }
        assert(first_stuck(ss.skip(self.n as int)) is None);
        Ok(())
    }

    /// Moves head `mi` into the pending slot, applying the bottommost drop
    /// rule (a dropped head simply never becomes pending). A tombstone is
    /// droppable only when it is shadowed by the last emitted tombstone:
    /// identical `(start, end)` with `seq <= oldest_snapshot`. Then every
    /// live snapshot sees the shadowing tombstone (or a newer one), so the
    /// dropped one was never decisive. Without the shadow gate, dropping a
    /// tombstone below the oldest snapshot would resurrect covered keys at
    /// any live snapshot sitting between the two sequences.
    fn set_pending_from_head(&mut self, mi: usize, Ghost(block): Ghost<int>)
        requires
            old(self).wf(block),
            mi < old(self).n,
            old(self).heads@[mi as int].has_head,
        ensures
            final(self).wf(block),
            final(self).heads == old(self).heads,
            final(self).n == old(self).n,
            final(self).current == old(self).current,
            final(self).shadow() == old(self).shadow(),
            final(self).fold() == (FoldV {
                pending: opened(
                    old(self).shadow(),
                    old(self).fold().last,
                    old(self).heads@[mi as int].entry.rdel(),
                ),
                last: old(self).fold().last,
            }),
    {
        let e: OwnedRdel<KEY_MAX> = self.heads[mi].entry;
        assert(self.heads@[mi as int].wf(block));
        // The shadow gate: the last emitted tombstone must name the
        // identical range and be visible to every live snapshot.
        let shadowed: bool = match &self.last_emitted {
            Some(p) => p.seq <= self.oldest_snapshot && p.same_range(&e),
            None => false,
        };
        if self.bottommost && e.seq < self.oldest_snapshot && shadowed {
            self.has_pending = false;
        } else {
            self.pending = e;
            self.has_pending = true;
        }
    }

    /// Consumes head `mi`: coalesces it into the pending entry, or emits
    /// that and starts a new one. Returns `true` on an emission.
    fn take_head(&mut self, mi: usize, Ghost(block): Ghost<int>) -> (emit: bool)
        requires
            old(self).wf(block),
            mi < old(self).n,
            old(self).heads@[mi as int].has_head,
        ensures
            final(self).wf(block),
            final(self).n == old(self).n,
            final(self).shadow() == old(self).shadow(),
            final(self).heads@ == old(self).heads@.update(
                mi as int,
                RdelHead { has_head: false, ..old(self).heads@[mi as int] },
            ),
            ({
                let e = old(self).heads@[mi as int].entry.rdel();
                let st = old(self).fold();
                let p = old(self).shadow();
                if continues(st.pending, e) {
                    &&& !emit
                    &&& final(self).fold() == (FoldV {
                        pending: Some(grown(st.pending->0, e)),
                        ..st
                    })
                } else {
                    match st.pending {
                        Some(q) => {
                            &&& emit
                            &&& final(self).current() == q
                            &&& rdel_within(q, KEY_MAX)
                            &&& final(self).fold() == (FoldV {
                                pending: opened(p, Some(q), e),
                                last: Some(q),
                            })
                        },
                        None => {
                            &&& !emit
                            &&& final(self).fold() == (FoldV {
                                pending: opened(p, st.last, e),
                                last: st.last,
                            })
                        },
                    }
                }
            }),
    {
        assert(self.heads@[mi as int].wf(block));
        let h: OwnedRdel<KEY_MAX> = self.heads[mi].entry;
        let mut emit: bool = false;
        if self.has_pending && h.seq == self.pending.seq && bytes_le(
            h.start.as_slice(),
            self.pending.end.as_slice(),
        ) {
            // Same-sequence overlap or adjacency: coalesce to the union.
            // Merge order is `start` ascending within a `seq`, so
            // `pending.start <= head.start` and only the end can grow.
            // Exact duplicates fold here too.
            if bytes_lt(self.pending.end.as_slice(), h.end.as_slice()) {
                self.pending.end = h.end;
            }
        } else {
            if self.has_pending {
                self.current = self.pending;
                self.last_emitted = Some(self.pending);
                emit = true;
            }
            self.set_pending_from_head(mi, Ghost(block));
        }
        self.heads[mi].has_head = false;
        emit
    }

    /// Advances past one merged entry. Returns `true` when
    /// [`current_entry`](RdelMerger::current_entry) now holds the next
    /// entry of the merged section, `false` when the merge is exhausted.
    ///
    /// # Errors
    ///
    /// [`Error::CorruptBlock`] on CRC failure or malformed entries (also
    /// bounds beyond the key limit), or [`Error::Device`] on I/O failure.
    pub fn next_merged<D: BlockDevice, const BLOCK: usize>(
        &mut self,
        device: &D,
        raw: &mut [u8; BLOCK],
    ) -> (r: Result<bool, Error<D::Error>>)
        requires
            D::BLOCK == BLOCK,
            BLOCK >= 6,
            old(self).wf(BLOCK as int),
        ensures
            final(self).wf(BLOCK as int),
            final(self).places() == old(self).places(),
            final(self).holds_entry(),
            ({
                let s = old(self).output(device.content());
                match r {
                    Ok(true) => {
                        &&& s.rs.len() > 0
                        &&& final(self).current() == s.rs[0]
                        &&& rdel_within(s.rs[0], KEY_MAX)
                        &&& final(self).output(device.content()) == (RStreamV {
                            rs: s.rs.skip(1),
                            fault: s.fault,
                        })
                    },
                    Ok(false) => s == rended() && final(self).output(device.content())
                        == rended(),
                    Err(e) => e is Device || (stuck(s) && e == (Error::<D::Error>::CorruptBlock {
                        id: s.fault->0,
                    })),
                }
            }),
    {
        let ghost c = device.content();
        let ghost goal = self.output(c);
        let ghost p = self.shadow();
        loop
            invariant
                D::BLOCK == BLOCK,
                BLOCK >= 6,
                self.wf(BLOCK as int),
                c == device.content(),
                goal == old(self).output(c),
                self.output(c) == goal,
                self.shadow() == p,
                self.places() == old(self).places(),
            decreases rleft_in(self.streams(c)),
        {
            let ghost ss = self.streams(c);
            let ghost st = self.fold();
            match self.fill_heads(device, raw) {
                Ok(()) => {},
                Err(e) => {
                    return Err(e);
                },
            }
            assert(self.fold() == st);
            let mi: usize = match self.min_head(Ghost(c), Ghost(BLOCK as int)) {
                Some(mi) => mi,
                None => {
                    proof {
                        lemma_rzip_end(ss);
                    }
                    if self.has_pending {
                        self.current = self.pending;
                        self.last_emitted = Some(self.pending);
                        self.has_pending = false;
                        proof {
                            assert(goal.rs =~= seq![st.pending->0]);
                            assert(goal.rs.skip(1) =~= Seq::<RdelV>::empty());
                            assert(self.streams(c) =~= ss);
                        }
                        return Ok(true);
                    }
                    return Ok(false);
                },
            };
            let ghost h0 = self.heads@[mi as int];
            let ghost e = h0.entry.rdel();
            let ghost tt = rpopped(ss, mi as int);
            let ghost zs = rzipped(ss);
            let ghost rest = RStreamV { rs: zs.rs.skip(1), fault: zs.fault };
            proof {
                assert(ss[mi as int] == h0.stream(c));
                lemma_rzip_step(ss, mi as int);
                lemma_rleft_popped(ss, mi as int);
                assert(zs.rs.skip(1) =~= rzipped(tt).rs);
                assert(rest =~= rzipped(tt));
                assert(zs.rs[0] == e);
                assert(h0.wf(BLOCK as int));
            }
            let emit: bool = self.take_head(mi, Ghost(BLOCK as int));
            proof {
                assert(self.streams(c) =~= tt) by {
                    assert(h0.rest(c).rs =~= ss[mi as int].rs.skip(1));
                }
                assert(self.places() =~= old(self).places());
            }
            if emit {
                proof {
                    assert(goal.rs.skip(1) =~= self.output(c).rs);
                }
                return Ok(true);
            }
        }
    }

    /// The entry produced by the last
    /// [`next_merged`](RdelMerger::next_merged) returning `true`.
    #[must_use]
    pub fn current_entry(&self) -> (r: RdelEntry<'_>)
        requires
            self.holds_entry(),
        ensures
            r@ == self.current(),
    {
        RdelEntry {
            start: self.current.start.as_slice(),
            end: self.current.end.as_slice(),
            seq: self.current.seq,
        }
    }
}

/// First block and block count of each input's section.
pub open spec fn section_places<const KEY_MAX: usize>(inputs: Seq<Input<KEY_MAX>>) -> Seq<
    (u64, u32),
> {
    Seq::new(inputs.len(), |i: int| (section_first(inputs[i].tref@), inputs[i].tref@.rdel_blocks))
}

/// Every section lies outside `[lo, hi)`.
pub open spec fn places_outside(ps: Seq<(u64, u32)>, lo: int, hi: int) -> bool {
    forall|i: int| 0 <= i < ps.len() ==> (#[trigger] ps[i]).0 + ps[i].1 <= lo || hi <= ps[i].0
}

/// Dry-run pass of the range-tombstone merge: returns the exact block
/// count the merged section will occupy, so compaction can reserve it.
/// The write pass replays the same deterministic merge over the immutable
/// input sections, so the counted budget always matches.
///
/// # Errors
///
/// [`Error::CorruptBlock`] on CRC failure or malformed entries,
/// [`Error::NoSpace`] when the merged tombstones cannot be counted, or
/// [`Error::Device`] on I/O failure.
pub fn count_rdel_merge<D: BlockDevice, const BLOCK: usize, const KEY_MAX: usize>(
    device: &D,
    inputs: &[Input<KEY_MAX>],
    raw: &mut [u8; BLOCK],
    bottommost: bool,
    oldest_snapshot: u64,
) -> (r: Result<u32, Error<D::Error>>)
    requires
        D::BLOCK == BLOCK,
        rdel_shape(BLOCK as int),
        12 + 2 * KEY_MAX + RDEL_TRAILER <= BLOCK,
        inputs@.len() <= COMPACTION_KMAX,
    ensures
        ({
            let out = rdel_output(
                ShadowV { bottommost, oldest_snapshot },
                input_sections(device.content(), inputs@),
            );
            match r {
                Ok(n) => out.fault is None && n == rpack(out.rs, BLOCK as int).len(),
                Err(e) => {
                    ||| e is Device
                    ||| out.fault matches Some(id) && e == (Error::<D::Error>::CorruptBlock { id })
                    ||| e == Error::<D::Error>::NoSpace && out.rs.len() > u32::MAX
                },
            }
        }),
{
    let ghost c = device.content();
    let ghost out = rdel_output(
        ShadowV { bottommost, oldest_snapshot },
        input_sections(c, inputs@),
    );
    let mut merger: RdelMerger<KEY_MAX> = RdelMerger::new(inputs, bottommost, oldest_snapshot);
    let mut counter: RdelCounter<BLOCK> = RdelCounter::new();
    let mut n: u32 = 0;
    assert(out.rs.take(0) =~= Seq::<RdelV>::empty());
    assert(out.rs.skip(0) =~= out.rs);
    loop
        invariant
            D::BLOCK == BLOCK,
            rdel_shape(BLOCK as int),
            12 + 2 * KEY_MAX + RDEL_TRAILER <= BLOCK,
            c == device.content(),
            merger.wf(BLOCK as int),
            counter.wf(),
            n <= out.rs.len(),
            counter@ == out.rs.take(n as int),
            merger.output(c) == (RStreamV { rs: out.rs.skip(n as int), fault: out.fault }),
            out == rdel_output(
                ShadowV { bottommost, oldest_snapshot },
                input_sections(c, inputs@),
            ),
        decreases out.rs.len() - n,
    {
        match merger.next_merged(device, raw) {
            Ok(true) => {},
            Ok(false) => {
                assert(out.rs.take(n as int) =~= out.rs);
                return Ok(counter.finish());
            },
            Err(e) => {
                return Err(e);
            },
        }
        if n == u32::MAX {
            return Err(Error::NoSpace);
        }
        counter.push(merger.current_entry());
        n = n + 1;
        proof {
            assert(out.rs.skip(n - 1).skip(1) =~= out.rs.skip(n as int));
            assert(out.rs.take(n as int) =~= out.rs.take(n - 1).push(out.rs[n - 1]));
        }
    }
}

} // verus!

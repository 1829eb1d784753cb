//! Key ranges of tables and range-tombstone sections.

use vstd::prelude::*;

use crate::bytes::{bytes_le, lex_le, lex_lt};
use crate::error::Error;
use crate::keys::KeyBound;
use crate::sstable::block::RdelEntry;
use crate::sstable::format::RdelV;
use crate::sstable::rdel::{rdels_low, rdels_top};

verus! {

/// The two key ranges `[a_first, a_last]` and `[b_first, b_last]` share a
/// key, given that neither is inverted.
pub open spec fn overlap(
    a_first: Seq<u8>,
    a_last: Seq<u8>,
    b_first: Seq<u8>,
    b_last: Seq<u8>,
) -> bool {
    lex_le(a_first, b_last) && lex_le(b_first, a_last)
}

/// Ranges overlap exactly when they share a key, and symmetrically.
pub proof fn law_overlap(
    a_first: Seq<u8>,
    a_last: Seq<u8>,
    b_first: Seq<u8>,
    b_last: Seq<u8>,
)
    requires
        lex_le(a_first, a_last),
        lex_le(b_first, b_last),
    ensures
        overlap(a_first, a_last, b_first, b_last) == overlap(b_first, b_last, a_first, a_last),
        overlap(a_first, a_last, b_first, b_last) <==> exists|k: Seq<u8>| #[trigger]
            in_range(k, a_first, a_last) && in_range(k, b_first, b_last),
{
    if overlap(a_first, a_last, b_first, b_last) {
        let k = if lex_le(a_first, b_first) {
            b_first
        } else {
            a_first
        };
        crate::bytes::lemma_lex_irreflexive(k);
        crate::bytes::lemma_lex_total(a_first, b_first);
        if lex_lt(b_first, a_first) {
            crate::bytes::lemma_lex_asymmetric(b_first, a_first);
        }
        assert(in_range(k, a_first, a_last) && in_range(k, b_first, b_last));
    }
    if exists|k: Seq<u8>| #[trigger]
        in_range(k, a_first, a_last) && in_range(k, b_first, b_last) {
        let k = choose|k: Seq<u8>| #[trigger]
            in_range(k, a_first, a_last) && in_range(k, b_first, b_last);
        crate::bytes::lemma_lex_le_le(a_first, k, b_last);
        crate::bytes::lemma_lex_le_le(b_first, k, a_last);
    }
}

/// The key lies in the range.
pub open spec fn in_range(k: Seq<u8>, first: Seq<u8>, last: Seq<u8>) -> bool {
    lex_le(first, k) && lex_le(k, last)
}

/// True when the two key ranges share at least one key.
#[must_use]
pub fn ranges_overlap<const KEY_MAX: usize>(
    a_first: KeyBound<KEY_MAX>,
    a_last: KeyBound<KEY_MAX>,
    b_first: KeyBound<KEY_MAX>,
    b_last: KeyBound<KEY_MAX>,
) -> (r: bool)
    requires
        a_first.wf(),
        a_last.wf(),
        b_first.wf(),
        b_last.wf(),
    ensures
        r == overlap(a_first@, a_last@, b_first@, b_last@),
{
    bytes_le(a_first.as_slice(), b_last.as_slice()) && bytes_le(
        b_first.as_slice(),
        a_last.as_slice(),
    )
}

/// The lesser of two bounds; an empty one loses.
pub open spec fn lesser(a: Seq<u8>, b: Seq<u8>) -> Seq<u8> {
    if a.len() == 0 {
        b
    } else if b.len() == 0 {
        a
    } else if lex_lt(b, a) {
        b
    } else {
        a
    }
}

/// The greater of two bounds; an empty one loses.
pub open spec fn greater(a: Seq<u8>, b: Seq<u8>) -> Seq<u8> {
    if a.len() == 0 {
        b
    } else if b.len() == 0 {
        a
    } else if lex_lt(a, b) {
        b
    } else {
        a
    }
}

/// Smallest start of tombstones, empty without any.
pub open spec fn least_start(rs: Seq<RdelV>) -> Seq<u8>
    decreases rs.len(),
{
    if rs.len() == 0 {
        Seq::empty()
    } else {
        lesser(least_start(rs.drop_last()), rs.last().start)
    }
}

/// Largest end of tombstones, empty without any.
pub open spec fn greatest_end(rs: Seq<RdelV>) -> Seq<u8>
    decreases rs.len(),
{
    if rs.len() == 0 {
        Seq::empty()
    } else {
        greater(greatest_end(rs.drop_last()), rs.last().end)
    }
}

/// Folded bounds of one compaction's output range-tombstone section, for
/// the output [`TableRef`](crate::manifest::TableRef).
pub struct RdelStats<const KEY_MAX: usize> {
    /// Smallest start.
    pub first: KeyBound<KEY_MAX>,
    /// Largest end. The rdel end is exclusive; storing it as a table's
    /// inclusive last key is conservative for pruning.
    pub last: KeyBound<KEY_MAX>,
    /// Highest sequence (0 without any).
    pub max_seq: u64,
    /// Lowest sequence (`u64::MAX` without any).
    pub min_seq: u64,
}

impl<const KEY_MAX: usize> RdelStats<KEY_MAX> {
    /// The bounds are those of the tombstones.
    pub open spec fn of(&self, rs: Seq<RdelV>) -> bool {
        &&& self.first.wf()
        &&& self.last.wf()
        &&& self.first@ == least_start(rs)
        &&& self.last@ == greatest_end(rs)
        &&& self.max_seq == rdels_top(rs)
        &&& self.min_seq == rdels_low(rs)
    }

    /// Bounds of nothing.
    #[must_use]
    pub fn new() -> (r: Self)
        ensures
            r.of(Seq::empty()),
    {
        RdelStats {
            first: KeyBound::empty(),
            last: KeyBound::empty(),
            max_seq: 0,
            min_seq: u64::MAX,
        }
    }

    /// Folds one tombstone in.
    ///
    /// # Errors
    ///
    /// [`Error::CorruptBlock`] naming `id` when a bound exceeds `KEY_MAX`.
    pub fn observe<E>(&mut self, e: &RdelEntry<'_>, id: u64) -> (r: Result<(), Error<E>>)
        requires
            old(self).first.wf(),
            old(self).last.wf(),
            e@.start.len() <= 0xFFFF,
            e@.end.len() <= 0xFFFF,
        ensures
            if e@.start.len() <= KEY_MAX && e@.end.len() <= KEY_MAX {
                &&& r == Ok::<(), Error<E>>(())
                &&& forall|rs: Seq<RdelV>| #[trigger]
                    old(self).of(rs) ==> final(self).of(rs.push(e@))
            } else {
                &&& r == Err::<(), Error<E>>(Error::CorruptBlock { id })
                &&& *final(self) == *old(self)
            },
    {
        let start: KeyBound<KEY_MAX> = match KeyBound::from_slice(e.start) {
            Some(k) => k,
            None => {
                return Err(Error::CorruptBlock { id });
            },
        };
        let end: KeyBound<KEY_MAX> = match KeyBound::from_slice(e.end) {
            Some(k) => k,
            None => {
                return Err(Error::CorruptBlock { id });
            },
        };
        self.first = self.first.min(start);
        self.last = self.last.max(end);
        if e.seq > self.max_seq {
            self.max_seq = e.seq;
        }
        if e.seq < self.min_seq {
            self.min_seq = e.seq;
        }
        proof {
            assert forall|rs: Seq<RdelV>| #[trigger] old(self).of(rs) implies self.of(
                rs.push(e@),
            ) by {
                assert(rs.push(e@).drop_last() =~= rs);
            }
        }
        Ok(())
    }
}

} // verus!

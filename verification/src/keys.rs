//! Key bounds: fixed-capacity keys as the manifest stores them.

use vstd::prelude::*;

use crate::bytes::{bytes_lt, copy_into, lemma_splice_index, lex_le, lex_lt};

verus! {

/// Fixed-size key bound: `len` significant bytes of `bytes`.
#[derive(Debug, Clone, Copy, PartialEq, Eq)]
pub struct KeyBound<const KEY_MAX: usize> {
    /// Significant bytes.
    pub len: u16,
    /// Key bytes, `len` of them significant.
    pub bytes: [u8; KEY_MAX],
}

/// Every byte of `s` is `0xFF`.
pub open spec fn all_ff(s: Seq<u8>) -> bool {
    forall|i: int| 0 <= i < s.len() ==> #[trigger] s[i] == 0xFF
}

/// Nothing sorts between a key and itself extended by a zero byte.
proof fn lemma_push_zero(k: Seq<u8>, s: Seq<u8>)
    ensures
        lex_lt(k, s.push(0)) <==> lex_le(k, s),
    decreases s.len(),
{
    reveal_with_fuel(lex_lt, 3);
    let t = s.push(0);
    if s.len() == 0 {
        if k.len() > 0 && k[0] == 0 {
            assert(t.skip(1) =~= Seq::<u8>::empty());
        }
    } else if k.len() > 0 && k[0] == s[0] {
        assert(t.skip(1) =~= s.skip(1).push(0));
        lemma_push_zero(k.skip(1), s.skip(1));
    }
}

/// No key of at most `s.len()` bytes sorts after `s` when `s` is all `0xFF`.
proof fn lemma_ff_greatest(k: Seq<u8>, s: Seq<u8>)
    requires
        all_ff(s),
        k.len() <= s.len(),
    ensures
        lex_le(k, s),
    decreases s.len(),
{
    if k.len() > 0 && k[0] == s[0] {
        assert forall|i: int| 0 <= i < s.skip(1).len() implies #[trigger] s.skip(1)[i] == 0xFF by {
            assert(s[i + 1] == 0xFF);
        }
        lemma_ff_greatest(k.skip(1), s.skip(1));
    }
}

/// Incrementing the last byte that is not `0xFF` of a key and dropping the
/// rest gives the next key of no greater length.
proof fn lemma_increment(k: Seq<u8>, s: Seq<u8>, i: int)
    requires
        0 <= i < s.len(),
        k.len() <= s.len(),
        s[i] < 0xFF,
        all_ff(s.skip(i + 1)),
    ensures
        lex_lt(k, s.take(i).push((s[i] + 1) as u8)) <==> lex_le(k, s),
    decreases i,
{
    reveal_with_fuel(lex_lt, 3);
    let t = s.take(i).push((s[i] + 1) as u8);
    if i == 0 {
        assert(t[0] == s[0] + 1);
        assert(t.skip(1) =~= Seq::<u8>::empty());
        if k.len() > 0 && k[0] == s[0] {
            lemma_ff_greatest(k.skip(1), s.skip(1));
        }
    } else if k.len() > 0 && k[0] == s[0] {
        assert(s.skip(1).skip(i) =~= s.skip(i + 1));
        lemma_increment(k.skip(1), s.skip(1), i - 1);
        assert(t.skip(1) =~= s.skip(1).take(i - 1).push((s.skip(1)[i - 1] + 1) as u8));
    }
}

impl<const KEY_MAX: usize> View for KeyBound<KEY_MAX> {
    type V = Seq<u8>;

    /// The significant bytes.
    open spec fn view(&self) -> Seq<u8> {
        self.bytes@.take(self.len as int)
    }
}

impl<const KEY_MAX: usize> KeyBound<KEY_MAX> {
    /// The length lies in the capacity.
    pub open spec fn wf(&self) -> bool {
        self.len <= KEY_MAX
    }

    /// Every byte behind the significant ones is 0.
    pub open spec fn padded(&self) -> bool {
        forall|i: int| self.len <= i < KEY_MAX ==> #[trigger] self.bytes@[i] == 0
    }

    /// Zero-padded bounds are equal where their significant bytes are, so
    /// comparing two of them field by field compares the keys.
    pub proof fn law_padded_equal(self, other: Self)
        requires
            self.wf(),
            self.padded(),
            other.wf(),
            other.padded(),
        ensures
            self == other <==> self@ == other@,
    {
        if self@ == other@ {
            assert(self@.len() == self.len && other@.len() == other.len);
            assert forall|i: int| 0 <= i < KEY_MAX implies self.bytes@[i] == other.bytes@[i] by {
                if i < self.len {
                    assert(self.bytes@[i] == self@[i]);
                    assert(other.bytes@[i] == other@[i]);
                }
            }
            assert(self.bytes@ =~= other.bytes@);
            assert(self.bytes =~= other.bytes);
        }
    }

    /// An empty bound.
    #[must_use]
    pub fn empty() -> (r: Self)
        ensures
            r.wf(),
            r.padded(),
            r.len == 0,
            r@ == Seq::<u8>::empty(),
    {
        let r = KeyBound { len: 0, bytes: [0u8; KEY_MAX] };
        assert(r@ =~= Seq::<u8>::empty());
        r
    }

    /// Copies `key` into a zero-padded bound; `None` when `key` exceeds
    /// `KEY_MAX`.
    #[must_use]
    pub fn from_slice(key: &[u8]) -> (r: Option<Self>)
        ensures
            r is Some <==> key@.len() <= KEY_MAX && key@.len() <= 0xFFFF,
            r matches Some(b) ==> b.wf() && b.padded() && b@ == key@,
    {
        if key.len() > KEY_MAX || key.len() > 0xFFFF {
            return None;
        }
        let mut bytes: [u8; KEY_MAX] = [0u8; KEY_MAX];
        proof {
            lemma_splice_index(bytes@, 0, key@);
        }
        copy_into(&mut bytes, 0, key);
        let b = KeyBound { len: key.len() as u16, bytes };
        assert(b@ =~= key@);
        Some(b)
    }

    /// The significant bytes.
    #[must_use]
    pub fn as_slice(&self) -> (r: &[u8])
        requires
            self.wf(),
        ensures
            r@ == self@,
    {
        &self.bytes[0..self.len as usize]
    }

    /// The lesser bound; an empty one loses to any real key. Used to fold
    /// range-tombstone bounds into a table's key range.
    #[must_use]
    pub fn min(self, other: Self) -> (r: Self)
        requires
            self.wf(),
            other.wf(),
        ensures
            r == self || r == other,
            r == (if self@.len() == 0 {
                other
            } else if other@.len() == 0 {
                self
            } else if lex_lt(other@, self@) {
                other
            } else {
                self
            }),
    {
        if self.len == 0 {
            return other;
        }
        if other.len == 0 {
            return self;
        }
        if bytes_lt(other.as_slice(), self.as_slice()) {
            other
        } else {
            self
        }
    }

    /// The greater bound; an empty one loses to any real key.
    #[must_use]
    pub fn max(self, other: Self) -> (r: Self)
        requires
            self.wf(),
            other.wf(),
        ensures
            r == self || r == other,
            r == (if self@.len() == 0 {
                other
            } else if other@.len() == 0 {
                self
            } else if lex_lt(self@, other@) {
                other
            } else {
                self
            }),
    {
        if self.len == 0 {
            return other;
        }
        if other.len == 0 {
            return self;
        }
        if bytes_lt(self.as_slice(), other.as_slice()) {
            other
        } else {
            self
        }
    }

    /// The smallest key bound strictly after this one with no key of at most
    /// `KEY_MAX` bytes in between: every key `k` satisfies `k <= self`
    /// exactly when `k < successor`. `None` when this is the greatest
    /// possible key (`KEY_MAX` bytes of `0xFF`), or empty.
    #[must_use]
    pub fn successor(&self) -> (r: Option<Self>)
        requires
            self.wf(),
            KEY_MAX <= 0xFFFF,
        ensures
            r is None <==> self@.len() == 0 || (self@.len() == KEY_MAX && all_ff(self@)),
            r matches Some(n) ==> {
                &&& n.wf()
                &&& self.padded() ==> n.padded()
                &&& forall|k: Seq<u8>|
                    k.len() <= KEY_MAX ==> (#[trigger] lex_lt(k, n@) <==> lex_le(k, self@))
            },
    {
        let len: usize = self.len as usize;
        if len == 0 {
            return None;
        }
        let ghost s = self@;
        let mut next: Self = *self;
        if len < KEY_MAX {
            next.bytes[len] = 0;
            next.len = next.len + 1;
            proof {
                assert(next@ =~= s.push(0));
                assert forall|k: Seq<u8>| k.len() <= KEY_MAX implies (#[trigger] lex_lt(k, next@)
                    <==> lex_le(k, s)) by {
                    lemma_push_zero(k, s);
                }
            }
            return Some(next);
        }
        let mut i: usize = len;
        while i > 0
            invariant
                i <= len,
                len == KEY_MAX,
                len == self.len,
                KEY_MAX <= 0xFFFF,
                s == self@,
                next == *self,
                forall|j: int| i <= j < len ==> #[trigger] s[j] == 0xFF,
            decreases i,
        {
            i = i - 1;
            assert(self.bytes@[i as int] == s[i as int]);
            if next.bytes[i] != 0xFF {
                let b: u8 = next.bytes[i];
                next.bytes[i] = b + 1;
                let mut j: usize = i + 1;
                while j < KEY_MAX
                    invariant
                        i < j <= KEY_MAX,
                        forall|q: int| i < q < j ==> #[trigger] next.bytes@[q] == 0,
                        next.bytes@.take(i + 1) =~= s.take(i as int).push((b + 1) as u8),
                    decreases KEY_MAX - j,
                {
                    next.bytes[j] = 0;
                    j = j + 1;
                }
                next.len = (i + 1) as u16;
                proof {
                    assert(next@ =~= s.take(i as int).push((b + 1) as u8));
                    assert forall|k: Seq<u8>|
                        k.len() <= KEY_MAX implies (#[trigger] lex_lt(k, next@) <==> lex_le(k, s)) by {
                        lemma_increment(k, s, i as int);
                    }
                    assert(s[i as int] != 0xFF);
                }
                return Some(next);
            }
        }
        None
    }
}

} // verus!

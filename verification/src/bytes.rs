//! Byte-level helpers: little-endian integers, the lexicographic key order,
//! and slice copies.

use vstd::prelude::*;

verus! {

/// The `n` little-endian bytes of `v`.
#[verifier::opaque]
pub open spec fn le_bytes(v: nat, n: nat) -> Seq<u8>
    decreases n,
{
    if n == 0 {
        Seq::empty()
    } else {
        seq![(v % 256) as u8] + le_bytes(v / 256, (n - 1) as nat)
    }
}

/// The integer whose little-endian bytes are `s`.
#[verifier::opaque]
pub open spec fn le_value(s: Seq<u8>) -> nat
    decreases s.len(),
{
    if s.len() == 0 {
        0
    } else {
        s[0] as nat + 256 * le_value(s.skip(1))
    }
}

/// `256` to the power `n`.
pub open spec fn pow256(n: nat) -> nat
    decreases n,
{
    if n == 0 {
        1
    } else {
        256 * pow256((n - 1) as nat)
    }
}

pub broadcast proof fn lemma_le_bytes_len(v: nat, n: nat)
    ensures
        #[trigger] le_bytes(v, n).len() == n,
    decreases n,
{
    reveal_with_fuel(le_bytes, 2);
    if n > 0 {
        lemma_le_bytes_len(v / 256, (n - 1) as nat);
    }
}

/// Reading back the little-endian bytes of an integer that fits them gives
/// the integer.
pub proof fn lemma_le_roundtrip(v: nat, n: nat)
    requires
        v < pow256(n),
    ensures
        le_value(le_bytes(v, n)) == v,
        le_bytes(v, n).len() == n,
    decreases n,
{
    reveal_with_fuel(le_bytes, 2);
    reveal_with_fuel(le_value, 2);
    lemma_le_bytes_len(v, n);
    if n > 0 {
        let s = le_bytes(v, n);
        let rest = le_bytes(v / 256, (n - 1) as nat);
        assert(v / 256 < pow256((n - 1) as nat)) by {
            assert(v < 256 * pow256((n - 1) as nat));
        }
        lemma_le_roundtrip(v / 256, (n - 1) as nat);
        assert(s.skip(1) =~= rest);
        assert(s[0] == (v % 256) as u8);
    }
}

/// A little-endian value is bounded by the number of its bytes.
pub proof fn lemma_le_value_bound(s: Seq<u8>)
    ensures
        le_value(s) < pow256(s.len()),
    decreases s.len(),
{
    reveal_with_fuel(le_value, 2);
    if s.len() > 0 {
        lemma_le_value_bound(s.skip(1));
    }
}

/// Writing out a little-endian value gives the bytes it was read from.
pub proof fn lemma_le_bytes_of_value(s: Seq<u8>)
    ensures
        le_bytes(le_value(s), s.len()) == s,
    decreases s.len(),
{
    reveal_with_fuel(le_bytes, 2);
    reveal_with_fuel(le_value, 2);
    if s.len() > 0 {
        lemma_le_bytes_of_value(s.skip(1));
        let v = le_value(s);
        assert(v % 256 == s[0]);
        assert(v / 256 == le_value(s.skip(1)));
        assert(s =~= seq![s[0]] + s.skip(1));
    } else {
        assert(s =~= Seq::<u8>::empty());
    }
}

pub proof fn lemma_pow256()
    ensures
        pow256(0) == 1,
        pow256(1) == 0x100,
        pow256(2) == 0x1_0000,
        pow256(4) == 0x1_0000_0000,
        pow256(8) == 0x1_0000_0000_0000_0000,
{
    reveal_with_fuel(pow256, 9);
}

proof fn lemma_pow256_mono(a: nat, b: nat)
    requires
        a <= b,
    ensures
        0 < pow256(a) <= pow256(b),
    decreases b,
{
    if a < b {
        lemma_pow256_mono(a, (b - 1) as nat);
    } else if a > 0 {
        lemma_pow256_mono((a - 1) as nat, (b - 1) as nat);
    }
}

/// Reads the `n`-byte little-endian integer at `off`.
pub fn load_le(buf: &[u8], off: usize, n: usize) -> (r: u64)
    requires
        n <= 8,
        off + n <= buf@.len(),
    ensures
        r as nat == le_value(buf@.subrange(off as int, off + n)),
        r < pow256(n as nat),
{
    let mut v: u64 = 0;
    let mut i: usize = n;
    proof {
        reveal_with_fuel(le_value, 2);
    }
    while i > 0
        invariant
            i <= n,
            n <= 8,
            off + n <= buf@.len(),
            v as nat == le_value(buf@.subrange(off + i, off + n)),
        decreases i,
    {
        let ghost s = buf@.subrange(off + i - 1, off + n);
        proof {
            reveal_with_fuel(le_value, 2);
            assert(s.skip(1) =~= buf@.subrange(off + i, off + n));
            lemma_le_value_bound(s);
            lemma_pow256_mono(s.len(), 8);
            lemma_pow256();
        }
        assert(off + i <= buf@.len());
        let m: usize = buf.len();
        i = i - 1;
        v = buf[off + i] as u64 + 256 * v;
    }
    proof {
        lemma_le_value_bound(buf@.subrange(off as int, off + n));
    }
    v
}

/// The first `n` bytes of `s` as an integer, and what follows them; `None`
/// when `s` is shorter.
pub open spec fn take_le(s: Seq<u8>, n: nat) -> Option<(nat, Seq<u8>)> {
    if s.len() < n {
        None
    } else {
        Some((le_value(s.take(n as int)), s.skip(n as int)))
    }
}

/// An integer written in front of anything is read back.
pub proof fn lemma_take_le(v: nat, n: nat, rest: Seq<u8>)
    requires
        v < pow256(n),
    ensures
        take_le(le_bytes(v, n) + rest, n) == Some((v, rest)),
{
    lemma_le_roundtrip(v, n);
    assert((le_bytes(v, n) + rest).take(n as int) =~= le_bytes(v, n));
    assert((le_bytes(v, n) + rest).skip(n as int) =~= rest);
}

/// Overwrites the bytes of `dst` from `at` on with `src`.
#[verifier::opaque]
pub open spec fn spliced(dst: Seq<u8>, at: int, src: Seq<u8>) -> Seq<u8> {
    dst.subrange(0, at) + src + dst.subrange(at + src.len(), dst.len() as int)
}

/// Writing `b` right behind `a` is writing `a + b`.
pub proof fn lemma_splice_append(d: Seq<u8>, at: int, a: Seq<u8>, b: Seq<u8>)
    requires
        0 <= at,
        at + a.len() + b.len() <= d.len(),
    ensures
        spliced(spliced(d, at, a), at + a.len(), b) == spliced(d, at, a + b),
{
    reveal(spliced);
    assert(spliced(spliced(d, at, a), at + a.len(), b) =~= spliced(d, at, a + b));
}

/// Each byte after a write: the written one inside, the old one outside.
pub proof fn lemma_splice_index(d: Seq<u8>, at: int, s: Seq<u8>)
    requires
        0 <= at,
        at + s.len() <= d.len(),
    ensures
        spliced(d, at, s).len() == d.len(),
        forall|i: int| 0 <= i < at ==> #[trigger] spliced(d, at, s)[i] == d[i],
        forall|i: int| at <= i < at + s.len() ==> #[trigger] spliced(d, at, s)[i] == s[i - at],
        forall|i: int| at + s.len() <= i < d.len() ==> #[trigger] spliced(d, at, s)[i] == d[i],
{
    reveal(spliced);
}

/// Reading inside what was written.
pub proof fn lemma_splice_read(d: Seq<u8>, at: int, s: Seq<u8>, i: int, j: int)
    requires
        0 <= at,
        at + s.len() <= d.len(),
        0 <= i <= j <= s.len(),
    ensures
        spliced(d, at, s).subrange(at + i, at + j) == s.subrange(i, j),
        spliced(d, at, s).len() == d.len(),
{
    reveal(spliced);
    assert(spliced(d, at, s).subrange(at + i, at + j) =~= s.subrange(i, j));
}

/// Writes `v` as an `n`-byte little-endian integer at `off`.
pub fn store_le(buf: &mut [u8], off: usize, v: u64, n: usize)
    requires
        n <= 8,
        off + n <= old(buf)@.len(),
    ensures
        final(buf)@ == spliced(old(buf)@, off as int, le_bytes(v as nat, n as nat)),
        final(buf)@.len() == old(buf)@.len(),
{
    proof {
        reveal(spliced);
    }
    let m: usize = buf.len();
    let mut rest: u64 = v;
    let mut i: usize = 0;
    let ghost all = le_bytes(v as nat, n as nat);
    proof {
        lemma_le_bytes_len(v as nat, n as nat);
    }
    assert(all.skip(0) =~= all);
    while i < n
        invariant
            i <= n,
            n <= 8,
            off + n <= m,
            m == old(buf)@.len(),
            buf@.len() == m,
            all.len() == n,
            all.skip(i as int) == le_bytes(rest as nat, (n - i) as nat),
            buf@ =~= spliced(old(buf)@, off as int, all.subrange(0, i as int)),
        decreases n - i,
    {
        let ghost tail = all.skip(i as int);
        proof {
            reveal(spliced);
            reveal_with_fuel(le_bytes, 2);
            lemma_le_bytes_len(rest as nat / 256, (n - i - 1) as nat);
            assert(tail[0] == all[i as int]);
            assert(tail[0] == (rest % 256) as u8);
            assert(all.skip(i + 1) =~= tail.skip(1));
            assert(tail.skip(1) =~= le_bytes(rest as nat / 256, (n - i - 1) as nat));
        }
        buf[off + i] = (rest % 256) as u8;
        rest = rest / 256;
        i = i + 1;
    }
    assert(all.subrange(0, n as int) =~= all);
}

/// Copies `src` over the bytes of `dst` from `at` on.
pub fn copy_into(dst: &mut [u8], at: usize, src: &[u8])
    requires
        at + src@.len() <= old(dst)@.len(),
    ensures
        final(dst)@ == spliced(old(dst)@, at as int, src@),
        final(dst)@.len() == old(dst)@.len(),
{
    proof {
        reveal(spliced);
    }
    let n: usize = src.len();
    let m: usize = dst.len();
    let mut i: usize = 0;
    while i < n
        invariant
            n == src@.len(),
            i <= n,
            at + n <= m,
            m == old(dst)@.len(),
            dst@.len() == m,
            dst@ =~= spliced(old(dst)@, at as int, src@.subrange(0, i as int)),
        decreases n - i,
    {
        proof {
            reveal(spliced);
        }
        dst[at + i] = src[i];
        i = i + 1;
    }
    assert(src@.subrange(0, n as int) =~= src@);
}

/// Sets `dst[lo..hi]` to zero.
pub fn zero_fill(dst: &mut [u8], lo: usize, hi: usize)
    requires
        lo <= hi <= old(dst)@.len(),
    ensures
        final(dst)@ == spliced(old(dst)@, lo as int, Seq::new((hi - lo) as nat, |i: int| 0u8)),
        final(dst)@.len() == old(dst)@.len(),
{
    proof {
        reveal(spliced);
    }
    let mut i: usize = lo;
    while i < hi
        invariant
            lo <= i <= hi <= old(dst)@.len(),
            dst@.len() == old(dst)@.len(),
            dst@ =~= spliced(old(dst)@, lo as int, Seq::new((i - lo) as nat, |k: int| 0u8)),
        decreases hi - i,
    {
        proof {
            reveal(spliced);
        }
        dst[i] = 0u8;
        i = i + 1;
    }
}

/// Whether two byte strings are the same.
pub fn bytes_eq(a: &[u8], b: &[u8]) -> (r: bool)
    ensures
        r == (a@ == b@),
{
    if a.len() != b.len() {
        return false;
    }
    let n: usize = a.len();
    let mut i: usize = 0;
    while i < n
        invariant
            n == a@.len(),
            n == b@.len(),
            i <= n,
            forall|k: int| 0 <= k < i ==> a@[k] == b@[k],
        decreases n - i,
    {
        if a[i] != b[i] {
            return false;
        }
        i = i + 1;
    }
    assert(a@ =~= b@);
    true
}

/// The lexicographic order on byte strings: `a` sorts strictly before `b`.
pub open spec fn lex_lt(a: Seq<u8>, b: Seq<u8>) -> bool
    decreases a.len(),
{
    if b.len() == 0 {
        false
    } else if a.len() == 0 {
        true
    } else if a[0] != b[0] {
        a[0] < b[0]
    } else {
        lex_lt(a.skip(1), b.skip(1))
    }
}

/// `a` sorts before `b` or equals it.
pub open spec fn lex_le(a: Seq<u8>, b: Seq<u8>) -> bool {
    !lex_lt(b, a)
}

/// Of two byte strings that differ first at position `n`, the one with the
/// smaller byte there sorts first; where one ends there, the shorter one.
pub proof fn law_lex_first_difference(a: Seq<u8>, b: Seq<u8>, n: int)
    requires
        0 <= n <= a.len(),
        n < b.len(),
        forall|i: int| 0 <= i < n ==> #[trigger] a[i] == b[i],
        n < a.len() ==> a[n] < b[n],
    ensures
        lex_lt(a, b),
        !lex_lt(b, a),
        lex_le(a, b),
        !lex_le(b, a),
    decreases n,
{
    if n > 0 {
        let x = a.skip(1);
        let y = b.skip(1);
        assert(a[0] == b[0]);
        assert forall|i: int| 0 <= i < n - 1 implies #[trigger] x[i] == y[i] by {
            assert(a[i + 1] == b[i + 1]);
        }
        law_lex_first_difference(x, y, n - 1);
    }
}

/// No byte string sorts before itself.
pub proof fn lemma_lex_irreflexive(a: Seq<u8>)
    ensures
        !lex_lt(a, a),
    decreases a.len(),
{
    if a.len() > 0 {
        lemma_lex_irreflexive(a.skip(1));
    }
}

/// Of two byte strings neither of which sorts before the other, both are
/// the same.
pub proof fn lemma_lex_total(a: Seq<u8>, b: Seq<u8>)
    ensures
        lex_lt(a, b) || lex_lt(b, a) || a == b,
    decreases a.len(),
{
    if a.len() > 0 && b.len() > 0 && a[0] == b[0] {
        lemma_lex_total(a.skip(1), b.skip(1));
        assert(a =~= seq![a[0]] + a.skip(1));
        assert(b =~= seq![b[0]] + b.skip(1));
    } else if a.len() == 0 && b.len() == 0 {
        assert(a =~= b);
    }
}

/// The order is transitive.
pub proof fn lemma_lex_transitive(a: Seq<u8>, b: Seq<u8>, c: Seq<u8>)
    requires
        lex_lt(a, b),
        lex_lt(b, c),
    ensures
        lex_lt(a, c),
    decreases a.len(),
{
    if a.len() > 0 && a[0] == b[0] && b[0] == c[0] {
        lemma_lex_transitive(a.skip(1), b.skip(1), c.skip(1));
    }
}

/// The order is asymmetric.
pub proof fn lemma_lex_asymmetric(a: Seq<u8>, b: Seq<u8>)
    requires
        lex_lt(a, b),
    ensures
        !lex_lt(b, a),
        a != b,
{
    lemma_lex_irreflexive(a);
    if lex_lt(b, a) {
        lemma_lex_transitive(a, b, a);
    }
}

/// `<=` then `<` is `<`.
pub proof fn lemma_lex_le_lt(a: Seq<u8>, b: Seq<u8>, c: Seq<u8>)
    requires
        lex_le(a, b),
        lex_lt(b, c),
    ensures
        lex_lt(a, c),
{
    lemma_lex_total(a, b);
    if lex_lt(a, b) {
        lemma_lex_transitive(a, b, c);
    }
}

/// `<` then `<=` is `<`.
pub proof fn lemma_lex_lt_le(a: Seq<u8>, b: Seq<u8>, c: Seq<u8>)
    requires
        lex_lt(a, b),
        lex_le(b, c),
    ensures
        lex_lt(a, c),
{
    lemma_lex_total(b, c);
    if lex_lt(b, c) {
        lemma_lex_transitive(a, b, c);
    }
}

/// `<=` is transitive.
pub proof fn lemma_lex_le_le(a: Seq<u8>, b: Seq<u8>, c: Seq<u8>)
    requires
        lex_le(a, b),
        lex_le(b, c),
    ensures
        lex_le(a, c),
{
    if lex_lt(c, a) {
        lemma_lex_lt_le(c, a, b);
    }
}

/// Whether `a` sorts strictly before `b`.
pub fn bytes_lt(a: &[u8], b: &[u8]) -> (r: bool)
    ensures
        r == lex_lt(a@, b@),
{
    let n: usize = a.len();
    let m: usize = b.len();
    let mut i: usize = 0;
    assert(a@.skip(0) =~= a@);
    assert(b@.skip(0) =~= b@);
    while i < n && i < m
        invariant
            n == a@.len(),
            m == b@.len(),
            i <= n,
            i <= m,
            lex_lt(a@, b@) == lex_lt(a@.skip(i as int), b@.skip(i as int)),
        decreases n - i,
    {
        if a[i] != b[i] {
            return a[i] < b[i];
        }
        proof {
            assert(a@.skip(i as int).skip(1) =~= a@.skip(i + 1));
            assert(b@.skip(i as int).skip(1) =~= b@.skip(i + 1));
        }
        i = i + 1;
    }
    i < m
}

/// Whether `a` sorts before `b` or equals it.
pub fn bytes_le(a: &[u8], b: &[u8]) -> (r: bool)
    ensures
        r == lex_le(a@, b@),
{
    !bytes_lt(b, a)
}

} // verus!

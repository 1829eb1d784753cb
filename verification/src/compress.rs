//! Hand-rolled LZ77 block compression.
//!
//! A tiny `LZ77` codec for `SSTable` data blocks. The encoder is total over
//! slices, and the decoder bounds-checks every read and write, returning
//! [`DecompressError`] on malformed streams.
//!
//! # Stream format
//!
//! The stream is a sequence of tokens, each laid out in this order: tag
//! byte, literal-length extension bytes (if the high nibble is 15), the
//! literals themselves, match-length extension bytes (if the low nibble is
//! 15), and a 2-byte little-endian match offset. The last token ends with
//! its literals: the decoder stops once the output is full.
//!
//! The high nibble of the tag is the literal-run length (0-15), the low
//! nibble is the match length minus `MIN_MATCH` (0-15). A nibble value of 15
//! means "15, then extension bytes follow": each `0xFF` extension byte adds
//! 255, and the first non-`0xFF` byte adds its value. The match offset is
//! 1-32768, a distance back from the current output position.
//!
//! [`lz_decode`] gives the meaning of a stream, [`lz_encode`] the stream the
//! encoder produces, and [`law_lz_roundtrip`] ties the two together.

use vstd::prelude::*;

verus! {

/// Minimum bytes a compressed block must save before the writer keeps the
/// compressed form.
pub const COMPRESS_MIN_SAVING: usize = 128;

/// Minimum match length the encoder emits.
const MIN_MATCH: usize = 4;

/// Hash-table width: single-entry buckets, no chains.
const HASH_SIZE: usize = 1024;

/// Longest match the encoder will emit for one token.
const MAX_MATCH: usize = 65536;

/// Extension bytes stop counting above this sum.
const EXT_LIMIT: usize = 16777216;

/// Reasons a compressed stream can be rejected by [`decompress`].
#[derive(Debug, Clone, Copy, PartialEq, Eq, Structural)]
pub enum DecompressError {
    /// The stream ended mid-token.
    Truncated,
    /// A tag, length, or offset was structurally invalid (e.g. a match
    /// offset of zero, or a match reaching before the output start).
    Invalid,
}

impl DecompressError {
    /// The message of the error.
    pub fn message(&self) -> (r: &'static str)
        ensures
            r@ == (match self {
                DecompressError::Truncated => "truncated compressed stream"@,
                DecompressError::Invalid => "invalid compressed stream"@,
            }),
    {
        match self {
            DecompressError::Truncated => "truncated compressed stream",
            DecompressError::Invalid => "invalid compressed stream",
        }
    }
}

// ---------------------------------------------------------------------
// The meaning of a stream.

/// The extension bytes at the start of `s`: their sum added to `total`, and
/// how many there are. `None` when `s` ends before the last of them.
pub open spec fn ext_read(s: Seq<u8>, total: nat) -> Option<(nat, nat)>
    decreases s.len(),
{
    if s.len() == 0 {
        None
    } else {
        let t = total + s[0] as nat;
        if s[0] != 0xFF || t > 16777216 {
            Some((t, 1nat))
        } else {
            match ext_read(s.skip(1), t) {
                Some((v, used)) => Some((v, used + 1)),
                None => None,
            }
        }
    }
}

/// A length field: the nibble `nib`, followed by extension bytes at the
/// start of `s` when it is 15. Gives the length and the bytes used.
pub open spec fn len_read(nib: nat, s: Seq<u8>) -> Option<(nat, nat)> {
    if nib == 15 {
        match ext_read(s, 0) {
            Some((v, used)) => Some((15 + v, used)),
            None => None,
        }
    } else {
        Some((nib, 0nat))
    }
}

/// `out` with `len` more bytes, each equal to the byte `offset` before it.
pub open spec fn lz_copy(out: Seq<u8>, offset: nat, len: nat) -> Seq<u8>
    decreases len,
{
    if len == 0 {
        out
    } else {
        let o = lz_copy(out, offset, (len - 1) as nat);
        o.push(o[o.len() - offset])
    }
}

/// The literals of the token at the start of `s`: what is left of the
/// stream after them, and `out` with them appended.
pub open spec fn lz_step_lits(s: Seq<u8>, out: Seq<u8>, n: nat) -> Result<
    (Seq<u8>, Seq<u8>),
    DecompressError,
> {
    match len_read(s[0] as nat / 16, s.skip(1)) {
        None => Err(DecompressError::Truncated),
        Some((lit, used)) => {
            let rest = s.skip(1 + used as int);
            if lit > n - out.len() {
                Err(DecompressError::Invalid)
            } else if lit > rest.len() {
                Err(DecompressError::Truncated)
            } else {
                Ok((rest.skip(lit as int), out + rest.take(lit as int)))
            }
        },
    }
}

/// The match of a token with low nibble `nib`, its extension and offset at
/// the start of `s`: what is left of the stream after it, and `out` with
/// the match copied.
pub open spec fn lz_step_match(nib: nat, s: Seq<u8>, out: Seq<u8>, n: nat) -> Result<
    (Seq<u8>, Seq<u8>),
    DecompressError,
> {
    match len_read(nib, s) {
        None => Err(DecompressError::Truncated),
        Some((e, used)) => {
            let rest = s.skip(used as int);
            if rest.len() < 2 {
                Err(DecompressError::Truncated)
            } else {
                let offset = rest[0] as nat + 256 * rest[1] as nat;
                if offset == 0 || offset > out.len() || e + 4 > n - out.len() {
                    Err(DecompressError::Invalid)
                } else {
                    Ok((rest.skip(2), lz_copy(out, offset, e + 4)))
                }
            }
        },
    }
}

/// One token at the start of `s`. A token whose literals complete the
/// output has no match.
pub open spec fn lz_step(s: Seq<u8>, out: Seq<u8>, n: nat) -> Result<
    (Seq<u8>, Seq<u8>),
    DecompressError,
> {
    match lz_step_lits(s, out, n) {
        Err(e) => Err(e),
        Ok((rest, out1)) => {
            if out1.len() == n {
                Ok((rest, out1))
            } else {
                lz_step_match(s[0] as nat % 16, rest, out1, n)
            }
        },
    }
}

/// Decodes the tokens of `s` onto `out` until `n` bytes are out.
pub open spec fn lz_decode(s: Seq<u8>, out: Seq<u8>, n: nat) -> Result<Seq<u8>, DecompressError>
    decreases s.len(),
{
    if out.len() >= n {
        Ok(out)
    } else if s.len() == 0 {
        Err(DecompressError::Truncated)
    } else {
        proof {
            lemma_step_consumes(s, out, n);
        }
        match lz_step(s, out, n) {
            Err(e) => Err(e),
            Ok((rest, out1)) => lz_decode(rest, out1, n),
        }
    }
}

proof fn lemma_ext_read_bound(s: Seq<u8>, total: nat)
    ensures
        ext_read(s, total) matches Some((v, used)) ==> 1 <= used <= s.len(),
    decreases s.len(),
{
    if s.len() > 0 {
        lemma_ext_read_bound(s.skip(1), total + s[0] as nat);
    }
}

pub proof fn lemma_step_consumes(s: Seq<u8>, out: Seq<u8>, n: nat)
    requires
        s.len() > 0,
    ensures
        lz_step(s, out, n) matches Ok((rest, out1)) ==> rest.len() < s.len(),
{
    lemma_ext_read_bound(s.skip(1), 0);
    if let Ok((rest, out1)) = lz_step_lits(s, out, n) {
        lemma_ext_read_bound(rest, 0);
    }
}

// ---------------------------------------------------------------------
// The stream the encoder produces.

/// The hash bucket of the four bytes at `p`.
pub open spec fn lz_hash(src: Seq<u8>, p: int) -> int {
    let v = src[p] as int + 0x100 * src[p + 1] as int + 0x1_0000 * src[p + 2] as int + 0x100_0000
        * src[p + 3] as int;
    ((v * 0x9E37_79B9) % 0x1_0000_0000) / 0x40_0000
}

/// How many of the first `cap` bytes at `a` and at `b` agree.
pub open spec fn common_len(src: Seq<u8>, a: int, b: int, cap: nat) -> nat
    decreases cap,
{
    if cap == 0 || src[a] != src[b] {
        0
    } else {
        1 + common_len(src, a + 1, b + 1, (cap - 1) as nat)
    }
}

/// The match the encoder takes at `ip`, as position and length: the
/// position last recorded in the bucket of `ip`, within a 32 KiB window.
pub open spec fn lz_match(src: Seq<u8>, head: Seq<u32>, ip: int) -> (int, nat) {
    if ip + 4 > src.len() {
        (0, 0)
    } else {
        let cand = head[lz_hash(src, ip)];
        if cand == u32::MAX || cand >= ip || ip - cand > 32768 {
            (0, 0)
        } else {
            let room = src.len() - ip;
            (
                cand as int,
                common_len(
                    src,
                    cand as int,
                    ip,
                    if room < 65536 {
                        room as nat
                    } else {
                        65536
                    },
                ),
            )
        }
    }
}

/// Records the positions `p..` whose four bytes end by `end`.
pub open spec fn lz_index(src: Seq<u8>, head: Seq<u32>, p: int, end: int) -> Seq<u32>
    decreases end - p,
{
    if p + 4 > end {
        head
    } else {
        lz_index(src, head.update(lz_hash(src, p), p as u32), p + 1, end)
    }
}

/// The tag byte of a token with `lit` literals and encoded match length `e`.
pub open spec fn tag_of(lit: nat, e: nat) -> u8 {
    let l = if lit < 15 {
        lit
    } else {
        15
    };
    let m = if e < 15 {
        e
    } else {
        15
    };
    (16 * l + m) as u8
}

/// Extension bytes for what a length adds beyond its nibble.
pub open spec fn ext_tail(rem: nat) -> Seq<u8>
    decreases rem,
{
    if rem < 255 {
        seq![rem as u8]
    } else {
        seq![0xFFu8] + ext_tail((rem - 255) as nat)
    }
}

/// Extension bytes of a length field, none below 15.
pub open spec fn ext_of(len: nat) -> Seq<u8> {
    if len < 15 {
        Seq::empty()
    } else {
        ext_tail((len - 15) as nat)
    }
}

/// The two bytes of a match offset.
pub open spec fn offset_of(v: int) -> Seq<u8> {
    seq![(v % 256) as u8, (v / 256) as u8]
}

/// The head of a token: tag, literal extension, and the literals
/// `src[anchor..ip]`.
pub open spec fn lz_lits(src: Seq<u8>, anchor: int, ip: int, e: nat) -> Seq<u8> {
    seq![tag_of((ip - anchor) as nat, e)] + ext_of((ip - anchor) as nat) + src.subrange(anchor, ip)
}

/// A whole token: the literals `src[anchor..ip]`, then a match of `mlen`
/// bytes back to `pos`.
pub open spec fn lz_token(src: Seq<u8>, anchor: int, ip: int, pos: int, mlen: nat) -> Seq<u8> {
    lz_lits(src, anchor, ip, (mlen - 4) as nat) + ext_of((mlen - 4) as nat) + offset_of(ip - pos)
}

/// The tokens for `src` from `ip` on, with `src[anchor..ip]` pending as
/// literals and `head` the positions recorded so far.
pub open spec fn lz_tokens(src: Seq<u8>, head: Seq<u32>, anchor: int, ip: int) -> Seq<u8>
    decreases src.len() - ip,
{
    if ip >= src.len() {
        lz_lits(src, anchor, src.len() as int, 0)
    } else {
        let m = lz_match(src, head, ip);
        if m.1 >= 4 {
            let end = ip + m.1;
            proof {
                lemma_match_room(src, head, ip);
            }
            lz_token(src, anchor, ip, m.0, m.1) + lz_tokens(
                src,
                lz_index(src, head, ip + 1, end),
                end,
                end,
            )
        } else if ip + 4 <= src.len() {
            lz_tokens(src, head.update(lz_hash(src, ip), ip as u32), anchor, ip + 1)
        } else {
            lz_tokens(src, head, anchor, ip + 1)
        }
    }
}

/// The compressed stream of `src`.
pub open spec fn lz_encode(src: Seq<u8>) -> Seq<u8> {
    lz_tokens(src, Seq::new(1024, |i: int| u32::MAX), 0, 0)
}

/// Whether the compressed form of a block is kept: it saves at least
/// [`COMPRESS_MIN_SAVING`] bytes and its length fits 15 bits.
pub open spec fn lz_worth(src: Seq<u8>) -> bool {
    &&& lz_encode(src).len() + COMPRESS_MIN_SAVING <= src.len()
    &&& lz_encode(src).len() < 32768
}

/// A match repeats what stands `offset` bytes before, byte by byte, also
/// where it runs into what it has itself put out.
pub proof fn law_lz_copy(out: Seq<u8>, offset: nat, len: nat)
    requires
        1 <= offset <= out.len(),
    ensures
        lz_copy(out, offset, len).len() == out.len() + len,
        lz_copy(out, offset, len).take(out.len() as int) == out,
        forall|i: int|
            out.len() <= i < out.len() + len ==> #[trigger] lz_copy(out, offset, len)[i] == lz_copy(
                out,
                offset,
                len,
            )[i - offset],
    decreases len,
{
    if len > 0 {
        let o = lz_copy(out, offset, (len - 1) as nat);
        law_lz_copy(out, offset, (len - 1) as nat);
        let w = lz_copy(out, offset, len);
        assert(w.take(out.len() as int) =~= o.take(out.len() as int));
        assert forall|i: int| out.len() <= i < out.len() + len implies #[trigger] w[i] == w[i
            - offset] by {
            if i < o.len() {
                assert(w[i] == o[i] && w[i - offset] == o[i - offset]);
            }
        }
    } else {
        assert(out.take(out.len() as int) =~= out);
    }
}

/// A short match is decoded exactly where its two offset bytes are there,
/// the offset reaches back into what is out, and the match ends within the
/// block.
pub proof fn law_lz_match_accepted(nib: nat, s: Seq<u8>, out: Seq<u8>, n: nat)
    requires
        nib < 15,
        out.len() <= n,
    ensures
        ({
            let offset = s[0] as nat + 256 * s[1] as nat;
            let r = lz_step_match(nib, s, out, n);
            &&& r is Ok <==> s.len() >= 2 && 1 <= offset <= out.len() && out.len() + nib + 4 <= n
            &&& r matches Ok(x) ==> x.0 == s.skip(2) && x.1 == lz_copy(out, offset, nib + 4)
            &&& s.len() < 2 ==> r == Err::<(Seq<u8>, Seq<u8>), DecompressError>(
                DecompressError::Truncated,
            )
        }),
{
    assert(s.skip(0) =~= s);
}

/// Short literals are decoded exactly where they are all there and end
/// within the block.
pub proof fn law_lz_literals_accepted(s: Seq<u8>, out: Seq<u8>, n: nat)
    requires
        s.len() >= 1,
        s[0] < 0xF0,
        out.len() <= n,
    ensures
        ({
            let lit = s[0] as int / 16;
            let r = lz_step_lits(s, out, n);
            &&& r is Ok <==> out.len() + lit <= n && 1 + lit <= s.len()
            &&& r matches Ok(x) ==> x.0 == s.skip(1 + lit) && x.1 == out + s.subrange(1, 1 + lit)
        }),
{
    let lit = s[0] as int / 16;
    if out.len() + lit <= n && 1 + lit <= s.len() {
        assert(s.skip(1).skip(lit) =~= s.skip(1 + lit));
        assert(s.skip(1).take(lit) =~= s.subrange(1, 1 + lit));
    }
}

/// How far two stretches agree is as far as they go.
pub proof fn law_common_len(src: Seq<u8>, a: int, b: int, cap: nat)
    ensures
        common_len(src, a, b, cap) <= cap,
        forall|i: int|
            0 <= i < common_len(src, a, b, cap) ==> #[trigger] src[a + i] == src[b + i],
        common_len(src, a, b, cap) < cap ==> src[a + common_len(src, a, b, cap)] != src[b
            + common_len(src, a, b, cap)],
    decreases cap,
{
    if cap > 0 && src[a] == src[b] {
        law_common_len(src, a + 1, b + 1, (cap - 1) as nat);
        let n = common_len(src, a, b, cap);
        assert forall|i: int| 0 <= i < n implies #[trigger] src[a + i] == src[b + i] by {
            if i > 0 {
                let k = i - 1;
                assert(src[a + 1 + k] == src[b + 1 + k]);
            }
        }
    }
}

proof fn lemma_ext_size(len: nat)
    ensures
        ext_tail(len).len() == len / 255 + 1,
    decreases len,
{
    if len >= 255 {
        lemma_ext_size((len - 255) as nat);
    }
}

proof fn lemma_run_common(src: Seq<u8>, a: int, b: int, cap: nat)
    requires
        0 <= a <= b,
        b + cap <= src.len(),
        forall|i: int| 0 <= i < src.len() ==> #[trigger] src[i] == src[0],
    ensures
        common_len(src, a, b, cap) == cap,
    decreases cap,
{
    if cap > 0 {
        assert(src[a] == src[0] && src[b] == src[0]);
        lemma_run_common(src, a + 1, b + 1, (cap - 1) as nat);
    }
}

/// A run of one byte compresses to a few bytes and one more for every 255:
/// a literal, and a match back to it over all the rest.
pub proof fn law_lz_shrinks_runs(src: Seq<u8>)
    requires
        5 <= src.len() <= 65536,
        forall|i: int| 0 <= i < src.len() ==> #[trigger] src[i] == src[0],
    ensures
        lz_encode(src).len() <= 7 + src.len() / 255,
{
    let n = src.len() as int;
    let h0 = Seq::new(1024, |i: int| u32::MAX);
    assert forall|p: int| 0 <= p <= n - 4 implies 0 <= #[trigger] lz_hash(src, p) < 1024 && lz_hash(
        src,
        p,
    ) == lz_hash(src, 0) by {
        assert(src[p] == src[0] && src[p + 1] == src[0] && src[p + 2] == src[0] && src[p + 3]
            == src[0]);
        assert(src[1] == src[0] && src[2] == src[0] && src[3] == src[0]);
    }
    let h1 = h0.update(lz_hash(src, 0), 0u32);
    assert(lz_match(src, h0, 0) == (0int, 0nat));
    assert(lz_encode(src) == lz_tokens(src, h1, 0, 1));
    let m = (n - 1) as nat;
    assert(h1[lz_hash(src, 1)] == 0);
    lemma_run_common(src, 0, 1, m);
    assert(lz_match(src, h1, 1) == (0int, m));
    let end = lz_index(src, h1, 2, n);
    assert(lz_tokens(src, h1, 0, 1) == lz_token(src, 0, 1, 0, m) + lz_tokens(src, end, n, n));
    assert(lz_tokens(src, end, n, n) == lz_lits(src, n, n, 0));
    if m - 4 >= 15 {
        lemma_ext_size((m - 4 - 15) as nat);
    }
}

/// The compressed form is kept exactly where it saves 128 bytes or more and
/// its length fits 15 bits.
pub proof fn law_lz_kept(src: Seq<u8>)
    ensures
        lz_worth(src) <==> lz_encode(src).len() + 128 <= src.len() && lz_encode(src).len()
            < 0x8000,
{
}

// ---------------------------------------------------------------------
// Decoding what was encoded.

proof fn lemma_ext_tail_read(rem: nat, total: nat, rest: Seq<u8>)
    requires
        total + rem <= 16777216,
    ensures
        ext_read(ext_tail(rem) + rest, total) == Some((total + rem, ext_tail(rem).len())),
    decreases rem,
{
    let s = ext_tail(rem) + rest;
    if rem >= 255 {
        lemma_ext_tail_read((rem - 255) as nat, total + 255, rest);
        assert(s.skip(1) =~= ext_tail((rem - 255) as nat) + rest);
        assert(s[0] == 0xFF);
    } else {
        assert(s[0] == rem as u8);
    }
}

proof fn lemma_len_read(len: nat, rest: Seq<u8>)
    requires
        len <= 16777216,
    ensures
        len_read(
            if len < 15 {
                len
            } else {
                15
            },
            ext_of(len) + rest,
        ) == Some((len, ext_of(len).len())),
{
    if len >= 15 {
        lemma_ext_tail_read((len - 15) as nat, 0, rest);
    }
}

proof fn lemma_copy_match(src: Seq<u8>, pos: int, ip: int, len: nat)
    requires
        0 <= pos < ip,
        ip + len <= src.len(),
        src.subrange(pos, pos + len) == src.subrange(ip, ip + len),
    ensures
        lz_copy(src.take(ip), (ip - pos) as nat, len) == src.take(ip + len),
    decreases len,
{
    if len > 0 {
        let a = src.subrange(pos, pos + len);
        let b = src.subrange(ip, ip + len);
        assert(a.drop_last() =~= src.subrange(pos, pos + len - 1));
        assert(b.drop_last() =~= src.subrange(ip, ip + len - 1));
        lemma_copy_match(src, pos, ip, (len - 1) as nat);
        let o = src.take(ip + len - 1);
        let k = len - 1;
        assert(a[k] == src[pos + k]);
        assert(b[k] == src[ip + k]);
        assert(o[o.len() - (ip - pos)] == src[pos + k]);
        assert(o.push(src[ip + k]) =~= src.take(ip + len));
    }
}

proof fn lemma_common_len(src: Seq<u8>, a: int, b: int, cap: nat)
    ensures
        common_len(src, a, b, cap) <= cap,
        0 <= a && 0 <= b && a + cap <= src.len() && b + cap <= src.len() ==> src.subrange(
            a,
            a + common_len(src, a, b, cap),
        ) == src.subrange(b, b + common_len(src, a, b, cap)),
    decreases cap,
{
    if cap > 0 && src[a] == src[b] {
        lemma_common_len(src, a + 1, b + 1, (cap - 1) as nat);
        if 0 <= a && 0 <= b && a + cap <= src.len() && b + cap <= src.len() {
            let n = common_len(src, a, b, cap);
            assert(src.subrange(a, a + n) =~= seq![src[a]] + src.subrange(a + 1, a + n));
            assert(src.subrange(b, b + n) =~= seq![src[b]] + src.subrange(b + 1, b + n));
        }
    } else if 0 <= a && 0 <= b && a + cap <= src.len() && b + cap <= src.len() {
        assert(src.subrange(a, a) =~= src.subrange(b, b));
    }
}

pub proof fn lemma_match_room(src: Seq<u8>, head: Seq<u32>, ip: int)
    requires
        ip < src.len(),
    ensures
        lz_match(src, head, ip).1 <= src.len() - ip,
{
    if ip + 4 <= src.len() {
        let cand = head[lz_hash(src, ip)];
        let room = (src.len() - ip) as nat;
        let cap = if room < 65536 {
            room
        } else {
            65536
        };
        lemma_common_len(src, cand as int, ip, cap);
    }
}

proof fn lemma_match_facts(src: Seq<u8>, head: Seq<u32>, ip: int)
    requires
        0 <= ip <= src.len(),
    ensures
        ({
            let m = lz_match(src, head, ip);
            m.1 > 0 ==> {
                &&& 0 <= m.0 < ip
                &&& ip - m.0 <= 32768
                &&& m.1 <= 65536
                &&& ip + m.1 <= src.len()
                &&& src.subrange(m.0, m.0 + m.1) == src.subrange(ip, ip + m.1)
            }
        }),
{
    if ip + 4 <= src.len() {
        let cand = head[lz_hash(src, ip)];
        let room = (src.len() - ip) as nat;
        let cap = if room < 65536 {
            room
        } else {
            65536
        };
        lemma_common_len(src, cand as int, ip, cap);
    }
}

/// One token of `lit` literals and a match decodes to both.
proof fn lemma_step_token(
    src: Seq<u8>,
    anchor: int,
    ip: int,
    pos: int,
    mlen: nat,
    rest: Seq<u8>,
)
    requires
        0 <= anchor <= ip,
        0 <= pos < ip,
        ip - pos <= 32768,
        4 <= mlen <= 65536,
        ip + mlen <= src.len(),
        ip - anchor <= 16777216,
        src.subrange(pos, pos + mlen) == src.subrange(ip, ip + mlen),
    ensures
        lz_step(lz_token(src, anchor, ip, pos, mlen) + rest, src.take(anchor), src.len()) == Ok::<
            (Seq<u8>, Seq<u8>),
            DecompressError,
        >((rest, src.take(ip + mlen))),
{
    let n = src.len();
    let out = src.take(anchor);
    let e = (mlen - 4) as nat;
    let lit = (ip - anchor) as nat;
    let lits = src.subrange(anchor, ip);
    let off = offset_of(ip - pos);
    let after = ext_of(e) + (off + rest);
    let s = lz_token(src, anchor, ip, pos, mlen) + rest;
    assert(s.skip(1) =~= ext_of(lit) + (lits + after));
    assert(s[0] == tag_of(lit, e));
    lemma_len_read(lit, lits + after);
    let s1 = s.skip(1 + ext_of(lit).len() as int);
    assert(s1 =~= lits + after);
    assert(s1.take(lit as int) =~= lits);
    assert(s1.skip(lit as int) =~= after);
    assert(out + lits =~= src.take(ip));
    assert(lz_step_lits(s, out, n) == Ok::<(Seq<u8>, Seq<u8>), DecompressError>(
        (after, src.take(ip)),
    ));
    lemma_len_read(e, off + rest);
    let s3 = after.skip(ext_of(e).len() as int);
    assert(s3 =~= off + rest);
    assert(s3.skip(2) =~= rest);
    lemma_copy_match(src, pos, ip, mlen);
}

/// The last token: literals up to the end.
proof fn lemma_step_last(src: Seq<u8>, anchor: int)
    requires
        0 <= anchor <= src.len(),
        src.len() - anchor <= 16777216,
    ensures
        lz_step(lz_lits(src, anchor, src.len() as int, 0), src.take(anchor), src.len()) == Ok::<
            (Seq<u8>, Seq<u8>),
            DecompressError,
        >((Seq::empty(), src)),
{
    let n = src.len();
    let lit = (n - anchor) as nat;
    let lits = src.subrange(anchor, n as int);
    let s = lz_lits(src, anchor, n as int, 0);
    lemma_len_read(lit, lits);
    assert(s.skip(1) =~= ext_of(lit) + lits);
    let s1 = s.skip(1 + ext_of(lit).len() as int);
    assert(s1 =~= lits);
    assert(s1.take(lit as int) =~= lits);
    assert(s1.skip(lit as int) =~= Seq::<u8>::empty());
    assert(src.take(anchor) + lits =~= src);
}

proof fn lemma_decode_tokens(src: Seq<u8>, head: Seq<u32>, anchor: int, ip: int)
    requires
        0 <= anchor <= ip <= src.len(),
        anchor < src.len() || src.len() == 0,
        lz_tokens(src, head, anchor, ip).len() <= 16777216,
    ensures
        lz_decode(lz_tokens(src, head, anchor, ip), src.take(anchor), src.len()) == Ok::<
            Seq<u8>,
            DecompressError,
        >(src),
    decreases src.len() - ip,
{
    reveal_with_fuel(lz_decode, 2);
    let s = lz_tokens(src, head, anchor, ip);
    let n = src.len();
    if n == 0 {
        assert(src.take(anchor) =~= src);
    } else if ip >= n {
        assert(src.subrange(anchor, n as int).len() <= s.len());
        lemma_step_last(src, anchor);
    } else {
        let m = lz_match(src, head, ip);
        lemma_match_facts(src, head, ip);
        if m.1 >= 4 {
            let end = ip + m.1;
            let head2 = lz_index(src, head, ip + 1, end);
            let rest = lz_tokens(src, head2, end, end);
            assert(src.subrange(anchor, ip).len() <= s.len());
            lemma_step_token(src, anchor, ip, m.0, m.1, rest);
            assert(rest.len() <= s.len());
            if end < n {
                lemma_decode_tokens(src, head2, end, end);
            } else {
                assert(src.take(end) =~= src);
            }
            assert(s.len() > 0);
        } else if ip + 4 <= n {
            lemma_decode_tokens(src, head.update(lz_hash(src, ip), ip as u32), anchor, ip + 1);
        } else {
            lemma_decode_tokens(src, head, anchor, ip + 1);
        }
    }
}

/// Decoding the stream of a block that is worth compressing gives the block
/// back.
pub proof fn law_lz_roundtrip(src: Seq<u8>)
    requires
        lz_worth(src),
    ensures
        lz_decode(lz_encode(src), Seq::empty(), src.len()) == Ok::<Seq<u8>, DecompressError>(src),
{
    lemma_decode_tokens(src, Seq::new(1024, |i: int| u32::MAX), 0, 0);
    assert(src.take(0) =~= Seq::<u8>::empty());
}

// ---------------------------------------------------------------------
// Executable code.

/// Caller-owned scratch for one compression pass.
///
/// `BLOCK` sizes the output staging. The logical block passed to
/// [`CompressScratch::compress`] must be exactly `BLOCK - 4` bytes: the full
/// data-block body the writer seals (entries, zero fill, restart trailer).
pub struct CompressScratch<const BLOCK: usize> {
    /// Last-seen position per hash bucket, `u32::MAX` = empty.
    head: [u32; HASH_SIZE],
    /// Staging for the compressed stream; valid up to `out_len`.
    out: [u8; BLOCK],
    out_len: usize,
}

impl<const BLOCK: usize> Default for CompressScratch<BLOCK> {
    /// Same as [`new`](Self::new).
    fn default() -> (r: Self)
        ensures
            r.wf(),
            r.stream() == Seq::<u8>::empty(),
    {
        CompressScratch::new()
    }
}

impl<const BLOCK: usize> CompressScratch<BLOCK> {
    /// The staged stream never exceeds the staging buffer.
    pub closed spec fn wf(&self) -> bool {
        self.out_len <= BLOCK
    }

    /// The staged stream.
    pub closed spec fn stream(&self) -> Seq<u8> {
        self.out@.take(self.out_len as int)
    }

    /// Creates empty scratch.
    #[must_use]
    pub fn new() -> (r: Self)
        ensures
            r.wf(),
            r.stream() == Seq::<u8>::empty(),
    {
        let r = CompressScratch { head: [u32::MAX; HASH_SIZE], out: [0u8; BLOCK], out_len: 0 };
        assert(r.stream() =~= Seq::<u8>::empty());
        r
    }

    /// The compressed bytes of the last successful
    /// [`compress`](Self::compress) call.
    #[must_use]
    pub fn compressed(&self) -> (r: &[u8])
        requires
            self.wf(),
        ensures
            r@ == self.stream(),
    {
        &self.out[0..self.out_len]
    }

    /// Compresses `src` (exactly `BLOCK - 4` bytes) into the staging buffer.
    ///
    /// Returns `Some(clen)` when the encoding is at least
    /// [`COMPRESS_MIN_SAVING`] bytes smaller than the input and fits the
    /// 15-bit length field of the block trailer flag; the bytes are then
    /// available via [`compressed`](Self::compressed). Returns `None` when
    /// the block should be stored raw.
    pub fn compress(&mut self, src: &[u8]) -> (r: Option<usize>)
        requires
            old(self).wf(),
        ensures
            final(self).wf(),
            r is Some <==> src@.len() + 4 == BLOCK && lz_worth(src@),
            r matches Some(clen) ==> {
                &&& clen == lz_encode(src@).len()
                &&& final(self).stream() == lz_encode(src@)
                &&& lz_decode(final(self).stream(), Seq::empty(), src@.len()) == Ok::<
                    Seq<u8>,
                    DecompressError,
                >(src@)
            },
    {
        if BLOCK < 4 {
            return None;
        }
        let body: usize = BLOCK - 4;
        if src.len() != body {
            return None;
        }
        self.head = [u32::MAX; HASH_SIZE];
        self.out_len = 0;
        let ghost goal = lz_encode(src@);
        proof {
            assert(self.head@ =~= Seq::new(1024, |i: int| u32::MAX));
            assert(self.stream() =~= Seq::<u8>::empty());
            assert(goal =~= self.stream() + goal);
        }
        let mut ip: usize = 0;
        let mut anchor: usize = 0;
        while ip < body
            invariant
                self.wf(),
                body + 4 == BLOCK,
                src@.len() == body,
                anchor <= ip <= body,
                goal == lz_encode(src@),
                goal == self.stream() + lz_tokens(src@, self.head@, anchor as int, ip as int),
            decreases body - ip,
        {
            let (mpos, mlen, h): (usize, usize, usize) = self.find_match(src, ip, body);
            proof {
                lemma_match_facts(src@, self.head@, ip as int);
            }
            if mlen >= MIN_MATCH {
                let end: usize = ip + mlen;
                let ghost head2 = lz_index(src@, self.head@, ip + 1, end as int);
                let ghost rest = lz_tokens(src@, head2, end as int, end as int);
                let ghost token = lz_token(src@, anchor as int, ip as int, mpos as int, mlen as nat);
                assert(goal =~= (self.stream() + token) + rest);
                if !self.emit_match(src, anchor, ip, mpos, mlen) {
                    return None;
                }
                let ghost s1 = self.stream();
                assert(goal == s1 + rest);
                let mut p: usize = ip + 1;
                while p <= end && MIN_MATCH <= end - p
                    invariant
                        self.wf(),
                        self.stream() == s1,
                        src@.len() == body,
                        ip < p <= end <= body,
                        head2 == lz_index(src@, self.head@, p as int, end as int),
                    decreases end - p,
                {
                    self.insert(src, p);
                    p = p + 1;
                }
                ip = end;
                anchor = ip;
            } else {
                if h != HASH_SIZE {
                    self.insert_at(h, ip);
                }
                ip = ip + 1;
            }
        }
        let lit_len: usize = body - anchor;
        let ghost tag = seq![tag_of(lit_len as nat, 0)];
        let ghost xl = ext_of(lit_len as nat);
        let ghost lits = src@.subrange(anchor as int, body as int);
        let ghost s0 = self.stream();
        assert(goal == s0 + (tag + xl + lits));
        assert(goal =~= (s0 + tag) + (xl + lits));
        if !self.emit_token(lit_len, 0) {
            return None;
        }
        assert(goal =~= (s0 + tag + xl) + lits);
        if !self.emit_ext(lit_len) {
            return None;
        }
        assert(goal =~= s0 + tag + xl + lits);
        if !self.emit_literals(src, anchor, body) {
            return None;
        }
        let clen: usize = self.out_len;
        assert(self.stream().len() == clen);
        assert(goal == self.stream());
        if clen <= body && body - clen >= COMPRESS_MIN_SAVING && clen < 32768 {
            proof {
                law_lz_roundtrip(src@);
            }
            Some(clen)
        } else {
            self.out_len = 0;
            None
        }
    }

    /// Appends one token: the literals `src[anchor..ip]` and a match of
    /// `mlen` bytes back to `mpos`. `false` on staging overflow.
    fn emit_match(
        &mut self,
        src: &[u8],
        anchor: usize,
        ip: usize,
        mpos: usize,
        mlen: usize,
    ) -> (r: bool)
        requires
            old(self).wf(),
            anchor <= ip <= src@.len(),
            mpos < ip,
            ip - mpos <= 32768,
            mlen >= 4,
        ensures
            final(self).wf(),
            final(self).head@ == old(self).head@,
            r <==> old(self).stream().len() + lz_token(
                src@,
                anchor as int,
                ip as int,
                mpos as int,
                mlen as nat,
            ).len() <= BLOCK,
            r ==> final(self).stream() == old(self).stream() + lz_token(
                src@,
                anchor as int,
                ip as int,
                mpos as int,
                mlen as nat,
            ),
    {
        let lit_len: usize = ip - anchor;
        let e: usize = mlen - MIN_MATCH;
        let ghost s0 = self.stream();
        let ghost tag = seq![tag_of(lit_len as nat, e as nat)];
        let ghost xl = ext_of(lit_len as nat);
        let ghost lits = src@.subrange(anchor as int, ip as int);
        let ghost xm = ext_of(e as nat);
        let ghost off = offset_of(ip - mpos);
        let ghost goal = s0 + lz_token(src@, anchor as int, ip as int, mpos as int, mlen as nat);
        assert(goal.len() == s0.len() + 1 + xl.len() + lits.len() + xm.len() + 2);
        if !self.emit_token(lit_len, e) {
            return false;
        }
        if !self.emit_ext(lit_len) {
            return false;
        }
        if !self.emit_literals(src, anchor, ip) {
            return false;
        }
        if !self.emit_ext(e) {
            return false;
        }
        let offset: usize = ip - mpos;
        let r: bool = self.emit_u16(offset);
        assert(s0 + tag + xl + lits + xm + off =~= goal);
        r
    }

    /// Hashes 4 bytes at `p` into a bucket.
    fn hash(src: &[u8], p: usize) -> (h: usize)
        requires
            p + 4 <= src@.len(),
        ensures
            h == lz_hash(src@, p as int),
            h < HASH_SIZE,
    {
        let n: usize = src.len();
        let v: u64 = src[p] as u64 + 0x100 * (src[p + 1] as u64) + 0x1_0000 * (src[p + 2] as u64)
            + 0x100_0000 * (src[p + 3] as u64);
        let h: u64 = ((v * 0x9E37_79B9) % 0x1_0000_0000) / 0x40_0000;
        h as usize
    }

    /// Records `p` in bucket `h`, which the caller has already hashed.
    fn insert_at(&mut self, h: usize, p: usize)
        requires
            h < HASH_SIZE,
            old(self).wf(),
        ensures
            final(self).wf(),
            final(self).stream() == old(self).stream(),
            final(self).head@ == old(self).head@.update(h as int, p as u32),
    {
        self.head[h] = p as u32;
    }

    /// Records position `p` in the hash table.
    fn insert(&mut self, src: &[u8], p: usize)
        requires
            p + 4 <= src@.len(),
            old(self).wf(),
        ensures
            final(self).wf(),
            final(self).stream() == old(self).stream(),
            final(self).head@ == old(self).head@.update(lz_hash(src@, p as int), p as u32),
    {
        let h: usize = Self::hash(src, p);
        self.insert_at(h, p);
    }

    /// Finds the match at `ip`: position and length, and the bucket `ip`
    /// hashed to, or `HASH_SIZE` too close to the tail to hash at all.
    fn find_match(&self, src: &[u8], ip: usize, body: usize) -> (r: (usize, usize, usize))
        requires
            self.wf(),
            ip < body,
            body == src@.len(),
        ensures
            (r.0 as int, r.1 as nat) == lz_match(src@, self.head@, ip as int),
            ip + 4 > body ==> r.2 == HASH_SIZE,
            ip + 4 <= body ==> r.2 == lz_hash(src@, ip as int) && r.2 < HASH_SIZE,
    {
        if body - ip < MIN_MATCH {
            return (0, 0, HASH_SIZE);
        }
        let h: usize = Self::hash(src, ip);
        let cand: u32 = self.head[h];
        if cand == u32::MAX {
            return (0, 0, h);
        }
        let pos: usize = cand as usize;
        if pos >= ip || ip - pos > 32768 {
            return (0, 0, h);
        }
        let mut len: usize = 0;
        let cap: usize = if body - ip < MAX_MATCH {
            body - ip
        } else {
            MAX_MATCH
        };
        while len < cap && src[pos + len] == src[ip + len]
            invariant
                pos < ip,
                len <= cap,
                ip + cap <= body,
                body == src@.len(),
                common_len(src@, pos as int, ip as int, cap as nat) == len + common_len(
                    src@,
                    pos + len,
                    ip + len,
                    (cap - len) as nat,
                ),
            decreases cap - len,
        {
            len = len + 1;
        }
        (pos, len, h)
    }

    /// Appends one byte; `false` when the staging buffer is full.
    fn emit(&mut self, b: u8) -> (r: bool)
        requires
            old(self).wf(),
        ensures
            final(self).wf(),
            final(self).head@ == old(self).head@,
            r <==> old(self).stream().len() < BLOCK,
            r ==> final(self).stream() == old(self).stream().push(b),
            !r ==> final(self).stream() == old(self).stream(),
    {
        if self.out_len >= BLOCK {
            return false;
        }
        self.out[self.out_len] = b;
        self.out_len = self.out_len + 1;
        assert(self.stream() =~= old(self).stream().push(b));
        true
    }

    /// Appends the token tag byte. `false` on staging overflow.
    fn emit_token(&mut self, lit_len: usize, e: usize) -> (r: bool)
        requires
            old(self).wf(),
        ensures
            final(self).wf(),
            final(self).head@ == old(self).head@,
            r <==> old(self).stream().len() < BLOCK,
            r ==> final(self).stream() == old(self).stream() + seq![
                tag_of(lit_len as nat, e as nat),
            ],
    {
        let lit: u8 = if lit_len < 15 {
            lit_len as u8
        } else {
            15
        };
        let mat: u8 = if e < 15 {
            e as u8
        } else {
            15
        };
        let r: bool = self.emit(16 * lit + mat);
        assert(r ==> self.stream() =~= old(self).stream() + seq![
            tag_of(lit_len as nat, e as nat),
        ]);
        r
    }

    /// Appends extension bytes for `len` when the nibble saturated at 15.
    /// `false` on staging overflow.
    fn emit_ext(&mut self, len: usize) -> (r: bool)
        requires
            old(self).wf(),
        ensures
            final(self).wf(),
            final(self).head@ == old(self).head@,
            r <==> old(self).stream().len() + ext_of(len as nat).len() <= BLOCK,
            r ==> final(self).stream() == old(self).stream() + ext_of(len as nat),
    {
        if len < 15 {
            assert(self.stream() + ext_of(len as nat) =~= self.stream());
            return true;
        }
        let mut rem: usize = len - 15;
        let ghost goal = old(self).stream() + ext_tail(rem as nat);
        while rem >= 255
            invariant
                self.wf(),
                self.head@ == old(self).head@,
                goal == self.stream() + ext_tail(rem as nat),
                goal == old(self).stream() + ext_of(len as nat),
            decreases rem,
        {
            let ghost before = self.stream();
            assert(goal.len() > before.len());
            if !self.emit(0xFF) {
                return false;
            }
            assert(goal =~= before.push(0xFFu8) + ext_tail((rem - 255) as nat));
            rem = rem - 255;
        }
        let ghost before = self.stream();
        let r: bool = self.emit(rem as u8);
        assert(goal =~= before.push(rem as u8));
        r
    }

    /// Appends `src[lo..hi]` as literals. `false` on staging overflow.
    fn emit_literals(&mut self, src: &[u8], lo: usize, hi: usize) -> (r: bool)
        requires
            old(self).wf(),
            lo <= hi <= src@.len(),
        ensures
            final(self).wf(),
            final(self).head@ == old(self).head@,
            r <==> old(self).stream().len() + (hi - lo) <= BLOCK,
            r ==> final(self).stream() == old(self).stream() + src@.subrange(lo as int, hi as int),
    {
        let mut p: usize = lo;
        while p < hi
            invariant
                self.wf(),
                self.head@ == old(self).head@,
                lo <= p <= hi <= src@.len(),
                self.stream() =~= old(self).stream() + src@.subrange(lo as int, p as int),
                self.stream().len() <= BLOCK,
            decreases hi - p,
        {
            if !self.emit(src[p]) {
                return false;
            }
            p = p + 1;
        }
        true
    }

    /// Appends a 2-byte little-endian offset. `false` on overflow or when
    /// the offset does not fit 16 bits.
    fn emit_u16(&mut self, v: usize) -> (r: bool)
        requires
            old(self).wf(),
        ensures
            final(self).wf(),
            final(self).head@ == old(self).head@,
            r <==> 0 < v <= 0xFFFF && old(self).stream().len() + 2 <= BLOCK,
            r ==> final(self).stream() == old(self).stream() + offset_of(v as int),
    {
        if v == 0 || v > 0xFFFF {
            return false;
        }
        if !self.emit((v % 256) as u8) {
            return false;
        }
        let r: bool = self.emit((v / 256) as u8);
        assert(r ==> self.stream() =~= old(self).stream() + offset_of(v as int));
        r
    }
}

/// Decompresses `src` into `dst`, which must be exactly the decompressed
/// block size (`BLOCK - 4`).
///
/// Returns the number of bytes written (always `dst.len()`) on success.
///
/// # Errors
///
/// [`DecompressError::Truncated`] when the stream ends mid-token and
/// [`DecompressError::Invalid`] on a structurally invalid length or match
/// offset, as [`lz_decode`] has it.
pub fn decompress(src: &[u8], dst: &mut [u8]) -> (r: Result<usize, DecompressError>)
    ensures
        final(dst)@.len() == old(dst)@.len(),
        match lz_decode(src@, Seq::empty(), old(dst)@.len()) {
            Ok(out) => r == Ok::<usize, DecompressError>(old(dst)@.len() as usize) && final(dst)@
                == out,
            Err(e) => r == Err::<usize, DecompressError>(e),
        },
{
    let mut sp: usize = 0;
    let mut dp: usize = 0;
    let out_len: usize = dst.len();
    let n: usize = src.len();
    let ghost goal = lz_decode(src@, Seq::empty(), out_len as nat);
    proof {
        assert(src@.skip(0) =~= src@);
        assert(dst@.take(0) =~= Seq::<u8>::empty());
        assert(dst@.take(out_len as int) =~= dst@);
    }
    while dp < out_len
        invariant
            n == src@.len(),
            sp <= n,
            dp <= out_len,
            dst@.len() == out_len,
            out_len == old(dst)@.len(),
            goal == lz_decode(src@, Seq::empty(), old(dst)@.len()),
            goal == lz_decode(src@.skip(sp as int), dst@.take(dp as int), out_len as nat),
            dst@.take(out_len as int) == dst@,
        decreases n - sp,
    {
        if sp >= n {
            return Err(DecompressError::Truncated);
        }
        match decode_token(src, sp, dst, dp) {
            Ok((sp2, dp2)) => {
                sp = sp2;
                dp = dp2;
            },
            Err(e) => {
                return Err(e);
            },
        }
        assert(dst@.take(out_len as int) =~= dst@);
    }
    Ok(out_len)
}

/// Decodes the token at `sp` onto `dst[..dp]`; gives the stream and output
/// positions after it.
fn decode_token(src: &[u8], sp: usize, dst: &mut [u8], dp: usize) -> (r: Result<
    (usize, usize),
    DecompressError,
>)
    requires
        sp < src@.len(),
        dp < old(dst)@.len(),
    ensures
        final(dst)@.len() == old(dst)@.len(),
        match lz_step(src@.skip(sp as int), old(dst)@.take(dp as int), old(dst)@.len()) {
            Ok((rest, out)) => r matches Ok((sp2, dp2)) && {
                &&& sp < sp2 <= src@.len()
                &&& dp2 <= old(dst)@.len()
                &&& rest == src@.skip(sp2 as int)
                &&& out == final(dst)@.take(dp2 as int)
            },
            Err(e) => r == Err::<(usize, usize), DecompressError>(e),
        },
{
    match decode_literals(src, sp, dst, dp) {
        Ok((sp1, dp1)) => {
            if dp1 == dst.len() {
                Ok((sp1, dp1))
            } else {
                let nib: u8 = src[sp] % 16;
                decode_match(nib, src, sp1, dst, dp1)
            }
        },
        Err(e) => Err(e),
    }
}

/// Decodes the tag's literals.
fn decode_literals(src: &[u8], sp: usize, dst: &mut [u8], dp: usize) -> (r: Result<
    (usize, usize),
    DecompressError,
>)
    requires
        sp < src@.len(),
        dp < old(dst)@.len(),
    ensures
        final(dst)@.len() == old(dst)@.len(),
        match lz_step_lits(src@.skip(sp as int), old(dst)@.take(dp as int), old(dst)@.len()) {
            Ok((rest, out)) => r matches Ok((sp2, dp2)) && {
                &&& sp < sp2 <= src@.len()
                &&& dp <= dp2 <= old(dst)@.len()
                &&& rest == src@.skip(sp2 as int)
                &&& out == final(dst)@.take(dp2 as int)
            },
            Err(e) => r == Err::<(usize, usize), DecompressError>(e),
        },
{
    let ghost s = src@.skip(sp as int);
    let ghost out = dst@.take(dp as int);
    let n: usize = src.len();
    let out_len: usize = dst.len();
    let tag: u8 = src[sp];
    let mut q: usize = sp + 1;
    assert(s.skip(1) =~= src@.skip(q as int));
    let mut lit_len: usize = (tag / 16) as usize;
    if lit_len == 15 {
        match read_ext(src, q) {
            Ok((total, next)) => {
                lit_len = lit_len + total;
                q = next;
            },
            Err(e) => {
                return Err(e);
            },
        }
    }
    let ghost s1 = src@.skip(q as int);
    let ghost used = (s.len() - 1 - s1.len()) as nat;
    assert(len_read((tag / 16) as nat, s.skip(1)) == Some((lit_len as nat, used)));
    assert(s1 =~= s.skip(1 + used as int));
    if lit_len > out_len - dp {
        return Err(DecompressError::Invalid);
    }
    if lit_len > n - q {
        return Err(DecompressError::Truncated);
    }
    copy_literals(src, q, dst, dp, lit_len);
    assert(dst@.take(dp + lit_len) =~= out + s1.take(lit_len as int));
    assert(src@.skip(q + lit_len) =~= s1.skip(lit_len as int));
    Ok((q + lit_len, dp + lit_len))
}

/// Decodes the match part of a token with low nibble `nib`.
fn decode_match(nib: u8, src: &[u8], sp: usize, dst: &mut [u8], dp: usize) -> (r: Result<
    (usize, usize),
    DecompressError,
>)
    requires
        nib < 16,
        sp <= src@.len(),
        dp <= old(dst)@.len(),
    ensures
        final(dst)@.len() == old(dst)@.len(),
        match lz_step_match(
            nib as nat,
            src@.skip(sp as int),
            old(dst)@.take(dp as int),
            old(dst)@.len(),
        ) {
            Ok((rest, out)) => r matches Ok((sp2, dp2)) && {
                &&& sp < sp2 <= src@.len()
                &&& dp2 <= old(dst)@.len()
                &&& rest == src@.skip(sp2 as int)
                &&& out == final(dst)@.take(dp2 as int)
            },
            Err(e) => r == Err::<(usize, usize), DecompressError>(e),
        },
{
    let ghost s = src@.skip(sp as int);
    let n: usize = src.len();
    let out_len: usize = dst.len();
    let mut q: usize = sp;
    let mut e: usize = nib as usize;
    if e == 15 {
        match read_ext(src, q) {
            Ok((total, next)) => {
                e = e + total;
                q = next;
            },
            Err(err) => {
                return Err(err);
            },
        }
    }
    let ghost s1 = src@.skip(q as int);
    let ghost used = (s.len() - s1.len()) as nat;
    assert(len_read(nib as nat, s) == Some((e as nat, used)));
    assert(s1 =~= s.skip(used as int));
    let match_len: usize = e + MIN_MATCH;
    if n - q < 2 {
        return Err(DecompressError::Truncated);
    }
    let offset: usize = src[q] as usize + 256 * (src[q + 1] as usize);
    assert(s1.skip(2) =~= src@.skip(q + 2));
    if offset == 0 || offset > dp || match_len > out_len - dp {
        return Err(DecompressError::Invalid);
    }
    copy_match(dst, dp, offset, match_len);
    Ok((q + 2, dp + match_len))
}

/// Copies `len` bytes of `src` at `sp` to `dst` at `dp`.
fn copy_literals(src: &[u8], sp: usize, dst: &mut [u8], dp: usize, len: usize)
    requires
        sp + len <= src@.len(),
        dp + len <= old(dst)@.len(),
    ensures
        final(dst)@.len() == old(dst)@.len(),
        final(dst)@.take(dp + len) == old(dst)@.take(dp as int) + src@.subrange(
            sp as int,
            sp + len,
        ),
{
    let n: usize = src.len();
    let m: usize = dst.len();
    let mut k: usize = 0;
    while k < len
        invariant
            n == src@.len(),
            m == old(dst)@.len(),
            k <= len,
            sp + len <= n,
            dp + len <= m,
            dst@.len() == m,
            dst@.take(dp + k) =~= old(dst)@.take(dp as int) + src@.subrange(sp as int, sp + k),
        decreases len - k,
    {
        let ghost o = dst@.take(dp + k);
        let b: u8 = src[sp + k];
        dst[dp + k] = b;
        k = k + 1;
        assert(dst@.take(dp + k) =~= o.push(b));
        assert(src@.subrange(sp as int, sp + k) =~= src@.subrange(sp as int, sp + k - 1).push(b));
    }
}

/// Copies a match byte by byte: it may overlap the write frontier.
fn copy_match(dst: &mut [u8], dp: usize, offset: usize, len: usize)
    requires
        0 < offset <= dp,
        dp + len <= old(dst)@.len(),
    ensures
        final(dst)@.len() == old(dst)@.len(),
        final(dst)@.take(dp + len) == lz_copy(old(dst)@.take(dp as int), offset as nat, len as nat),
{
    let m: usize = dst.len();
    let mut k: usize = 0;
    while k < len
        invariant
            m == old(dst)@.len(),
            k <= len,
            0 < offset <= dp,
            dp + len <= m,
            dst@.len() == m,
            dst@.take(dp + k) == lz_copy(old(dst)@.take(dp as int), offset as nat, k as nat),
        decreases len - k,
    {
        let ghost o = dst@.take(dp + k);
        let b: u8 = dst[dp + k - offset];
        dst[dp + k] = b;
        k = k + 1;
        assert(dst@.take(dp + k) =~= o.push(o[o.len() - offset]));
    }
}

/// Reads extension bytes at `sp`: `0xFF` adds 255 each, the first
/// non-`0xFF` byte adds its value. The sum stops
/// growing once it exceeds the limit; the position after the last byte read
/// comes with it.
fn read_ext(src: &[u8], sp: usize) -> (r: Result<(usize, usize), DecompressError>)
    requires
        sp <= src@.len(),
    ensures
        match ext_read(src@.skip(sp as int), 0) {
            Some((v, used)) => {
                &&& r == Ok::<(usize, usize), DecompressError>((v as usize, (sp + used) as usize))
                &&& v <= EXT_LIMIT + 255
                &&& sp + used <= src@.len()
            },
            None => r == Err::<(usize, usize), DecompressError>(DecompressError::Truncated),
        },
{
    let n: usize = src.len();
    let mut total: usize = 0;
    let mut p: usize = sp;
    let ghost goal = ext_read(src@.skip(sp as int), 0);
    loop
        invariant
            n == src@.len(),
            sp <= p <= n,
            total <= EXT_LIMIT,
            goal == ext_read(src@.skip(sp as int), 0),
            goal == (match ext_read(src@.skip(p as int), total as nat) {
                Some((v, used)) => Some((v, used + (p - sp) as nat)),
                None => None,
            }),
        decreases n - p,
    {
        if p >= n {
            return Err(DecompressError::Truncated);
        }
        let b: u8 = src[p];
        assert(src@.skip(p as int).skip(1) =~= src@.skip(p + 1));
        p = p + 1;
        total = total + b as usize;
        if b != 0xFF {
            return Ok((total, p));
        }
        if total > EXT_LIMIT {
            return Ok((total, p));
        }
    }
}

} // verus!

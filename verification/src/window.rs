//! A window onto a stream of bytes: what falls into it goes to a buffer.

use vstd::prelude::*;

use crate::bytes::{le_bytes, lemma_le_bytes_len, lemma_splice_read, store_le};

verus! {

/// Bytes `lo..hi` of a stream, written to a buffer from `base` on; the
/// others are only counted.
pub struct Window {
    lo: usize,
    hi: usize,
    base: usize,
    pos: usize,
    // The buffer before, and the stream so far.
    first: Ghost<Seq<u8>>,
    done: Ghost<Seq<u8>>,
}

impl Window {
    /// The stream so far.
    pub closed spec fn done(&self) -> Seq<u8> {
        self.done@
    }

    /// The window is over this stretch of the stream, and its part of the
    /// buffer starts at `base`.
    pub closed spec fn over(&self, first: Seq<u8>, lo: int, hi: int, base: int) -> bool {
        self.first@ == first && self.lo == lo && self.hi == hi && self.base == base
    }

    /// The buffer holds what of the stream fell into the window.
    pub closed spec fn shows(&self, out: Seq<u8>) -> bool {
        &&& self.pos == self.done@.len()
        &&& self.lo <= self.hi
        &&& self.base + (self.hi - self.lo) <= out.len()
        &&& out.len() == self.first@.len()
        &&& forall|k: int|
            0 <= k < out.len() ==> #[trigger] out[k] == (if self.base <= k && self.lo + (k - self.base)
                < self.hi && self.lo + (k - self.base) < self.done@.len() {
                self.done@[self.lo + (k - self.base)]
            } else {
                self.first@[k]
            })
    }

    /// Once the stream has passed the window, its stretch is in the buffer.
    pub proof fn lemma_shows(&self, out: Seq<u8>, first: Seq<u8>, lo: int, hi: int, base: int)
        requires
            self.shows(out),
            self.over(first, lo, hi, base),
            hi <= self.done().len(),
        ensures
            0 <= lo <= hi,
            base + (hi - lo) <= out.len() == first.len(),
            out == first.subrange(0, base) + self.done().subrange(lo, hi) + first.subrange(
                base + (hi - lo),
                first.len() as int,
            ),
    {
        assert(out =~= first.subrange(0, base) + self.done().subrange(lo, hi) + first.subrange(
            base + (hi - lo),
            first.len() as int,
        ));
    }

    /// A window before the first byte of a stream.
    pub fn new(lo: usize, hi: usize, base: usize, Ghost(first): Ghost<Seq<u8>>) -> (r: Self)
        requires
            lo <= hi,
            base + (hi - lo) <= first.len(),
        ensures
            r.over(first, lo as int, hi as int, base as int),
            r.done() == Seq::<u8>::empty(),
            r.shows(first),
    {
        Window { lo, hi, base, pos: 0, first: Ghost(first), done: Ghost(Seq::empty()) }
    }

    /// Bytes of the stream so far.
    pub fn count(&self, Ghost(out): Ghost<Seq<u8>>) -> (r: usize)
        requires
            self.shows(out),
        ensures
            r == self.done().len(),
    {
        self.pos
    }

    /// The next bytes of the stream.
    pub fn put(&mut self, out: &mut [u8], b: &[u8])
        requires
            old(self).shows(old(out)@),
            old(self).done().len() + b@.len() <= usize::MAX,
        ensures
            final(self).shows(final(out)@),
            final(self).done() == old(self).done() + b@,
            forall|first: Seq<u8>, lo: int, hi: int, base: int|
                old(self).over(first, lo, hi, base) ==> #[trigger] final(self).over(
                    first,
                    lo,
                    hi,
                    base,
                ),
            final(out)@.len() == old(out)@.len(),
    {
        let n: usize = b.len();
        let m: usize = out.len();
        let ghost done = self.done@;
        let mut i: usize = 0;
        assert(done + b@.take(0) =~= done);
        while i < n
            invariant
                n == b@.len(),
                i <= n,
                self.shows(out@),
                self.done@ == done + b@.take(i as int),
                done.len() + n <= usize::MAX,
                done == old(self).done@,
                self.lo == old(self).lo,
                self.hi == old(self).hi,
                self.base == old(self).base,
                self.first == old(self).first,
                out@.len() == old(out)@.len(),
                m == out@.len(),
            decreases n - i,
        {
            let at: usize = self.pos;
            if self.lo <= at && at < self.hi {
                out[self.base + (at - self.lo)] = b[i];
            }
            self.pos = at + 1;
            self.done = Ghost(self.done@.push(b@[i as int]));
            proof {
                assert(b@.take(i + 1) =~= b@.take(i as int).push(b@[i as int]));
                assert(self.done@ =~= done + b@.take(i + 1));
            }
            i = i + 1;
        }
        assert(b@.take(n as int) =~= b@);
    }

    /// The next bytes of the stream: an integer of `n` bytes.
    pub fn put_le(&mut self, out: &mut [u8], v: u64, n: usize)
        requires
            n <= 8,
            old(self).shows(old(out)@),
            old(self).done().len() + n <= usize::MAX,
        ensures
            final(self).shows(final(out)@),
            final(self).done() == old(self).done() + le_bytes(v as nat, n as nat),
            forall|first: Seq<u8>, lo: int, hi: int, base: int|
                old(self).over(first, lo, hi, base) ==> #[trigger] final(self).over(
                    first,
                    lo,
                    hi,
                    base,
                ),
            final(out)@.len() == old(out)@.len(),
    {
        let mut b: [u8; 8] = [0; 8];
        let ghost zero = b@;
        let ghost all = le_bytes(v as nat, n as nat);
        store_le(&mut b, 0, v, n);
        proof {
            lemma_le_bytes_len(v as nat, n as nat);
            lemma_splice_read(zero, 0, all, 0, n as int);
            assert(all.subrange(0, n as int) =~= all);
        }
        self.put(out, &b[0..n]);
    }
}

} // verus!

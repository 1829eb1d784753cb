//! Block allocation over fixed device regions.
//!
//! Each region (`[start, end)`) gets one [`Bump`] plus one [`FreeList`]. The
//! bump hands out never-allocated blocks; the free list holds blocks proved
//! unreferenced. Allocation tries the free list first, then the bump.

use vstd::prelude::*;

use crate::error::Error;

verus! {

/// Bump allocator over a contiguous block-id range `[start, end)`.
#[derive(Debug, Clone, Copy)]
pub struct Bump {
    next: u64,
    end: u64,
}

impl Bump {
    /// The next block id that would be allocated.
    pub closed spec fn next_id(&self) -> u64 {
        self.next
    }

    /// One past the last allocatable block id.
    pub closed spec fn end_id(&self) -> u64 {
        self.end
    }

    /// Creates a bump pointer over `[start, end)`.
    #[must_use]
    pub fn new(start: u64, end: u64) -> (r: Self)
        ensures
            r.next_id() == start,
            r.end_id() == end,
    {
        Bump { next: start, end }
    }

    /// The next block id that would be allocated.
    #[must_use]
    pub fn next(&self) -> (r: u64)
        ensures
            r == self.next_id(),
    {
        self.next
    }

    /// One past the last allocatable block id.
    #[must_use]
    pub fn end(&self) -> (r: u64)
        ensures
            r == self.end_id(),
    {
        self.end
    }

    /// Repositions the bump pointer.
    ///
    /// May move forward or backward; the caller must guarantee the new
    /// position does not alias live data.
    pub fn set_next(&mut self, next: u64)
        ensures
            final(self).next_id() == next,
            final(self).end_id() == old(self).end_id(),
    {
        self.next = next;
    }

    /// Allocates one block.
    ///
    /// # Errors
    ///
    /// [`Error::NoSpace`] when the region is exhausted.
    pub fn alloc_one<E>(&mut self) -> (r: Result<u64, Error<E>>)
        ensures
            final(self).end_id() == old(self).end_id(),
            if old(self).next_id() < old(self).end_id() {
                &&& r == Ok::<u64, Error<E>>(old(self).next_id())
                &&& final(self).next_id() == old(self).next_id() + 1
            } else {
                &&& r == Err::<u64, Error<E>>(Error::NoSpace)
                &&& final(self).next_id() == old(self).next_id()
            },
    {
        if self.next >= self.end {
            return Err(Error::NoSpace);
        }
        let id: u64 = self.next;
        self.next = self.next + 1;
        Ok(id)
    }

    /// Returns the base of a `count`-block run without advancing.
    ///
    /// # Errors
    ///
    /// [`Error::NoSpace`] when fewer than `count` blocks remain.
    pub fn peek_run<E>(&self, count: u64) -> (r: Result<u64, Error<E>>)
        ensures
            r == (if self.next_id() + count <= self.end_id() {
                Ok::<u64, Error<E>>(self.next_id())
            } else {
                Err::<u64, Error<E>>(Error::NoSpace)
            }),
    {
        if count > u64::MAX - self.next {
            return Err(Error::NoSpace);
        }
        if self.next + count > self.end {
            return Err(Error::NoSpace);
        }
        Ok(self.next)
    }

    /// Reserves `count` contiguous blocks, returning the first id.
    ///
    /// # Errors
    ///
    /// [`Error::NoSpace`] when fewer than `count` blocks remain.
    pub fn alloc_run<E>(&mut self, count: u64) -> (r: Result<u64, Error<E>>)
        ensures
            final(self).end_id() == old(self).end_id(),
            if old(self).next_id() + count <= old(self).end_id() {
                &&& r == Ok::<u64, Error<E>>(old(self).next_id())
                &&& final(self).next_id() == old(self).next_id() + count
            } else {
                &&& r == Err::<u64, Error<E>>(Error::NoSpace)
                &&& final(self).next_id() == old(self).next_id()
            },
    {
        match self.peek_run::<E>(count) {
            Ok(base) => {
                self.next = self.next + count;
                Ok(base)
            },
            Err(e) => Err(e),
        }
    }
}

/// The ids run upwards without a repeat.
pub open spec fn strictly_ascending(s: Seq<u64>) -> bool {
    forall|i: int, j: int| 0 <= i < j < s.len() ==> s[i] < s[j]
}

/// The `count` ids from position `i` of `s` on are consecutive.
pub open spec fn run_at(s: Seq<u64>, i: int, count: int) -> bool {
    &&& 0 <= i
    &&& i + count <= s.len()
    &&& forall|k: int| 0 <= k < count ==> #[trigger] s[i + k] == s[i] + k
}

/// Every id of `[base, base + count)` is in `s`.
pub open spec fn has_run(s: Seq<u64>, base: u64, count: int) -> bool {
    exists|i: int| 0 <= i < s.len() && s[i] == base && #[trigger] run_at(s, i, count)
}

/// Fixed-capacity sorted set of free block ids with first-fit contiguous run
/// allocation.
///
/// Size `CAP` to hold the region's whole block count; [`FreeList::insert`]
/// reports [`Error::NoSpace`] when it is undersized.
#[derive(Debug, Clone, Copy)]
pub struct FreeList<const CAP: usize> {
    ids: [u64; CAP],
    len: usize,
}

impl<const CAP: usize> FreeList<CAP> {
    /// The free ids, ascending.
    pub closed spec fn view(&self) -> Seq<u64> {
        self.ids@.take(self.len as int)
    }

    /// The ids are ascending without a repeat and within capacity.
    pub closed spec fn wf(&self) -> bool {
        &&& self.len <= CAP
        &&& strictly_ascending(self@)
    }

    /// A well-formed list holds its ids ascending, without a repeat, within
    /// capacity.
    pub proof fn lemma_wf(&self)
        requires
            self.wf(),
        ensures
            self@.len() <= CAP,
            strictly_ascending(self@),
    {
    }

    /// An empty free list.
    #[must_use]
    pub fn new() -> (r: Self)
        ensures
            r.wf(),
            r@ == Seq::<u64>::empty(),
    {
        let r = FreeList { ids: [0u64; CAP], len: 0 };
        assert(r@ =~= Seq::<u64>::empty());
        r
    }

    /// Number of free block ids held.
    #[must_use]
    pub fn len(&self) -> (r: usize)
        requires
            self.wf(),
        ensures
            r == self@.len(),
    {
        self.len
    }

    /// True when no block ids are held.
    #[must_use]
    pub fn is_empty(&self) -> (r: bool)
        requires
            self.wf(),
        ensures
            r == (self@.len() == 0),
    {
        self.len == 0
    }

    /// Inserts `id`, keeping ascending order. The id must not be held
    /// already: a duplicate would corrupt run accounting.
    ///
    /// # Errors
    ///
    /// [`Error::NoSpace`] when the list is full.
    pub fn insert<E>(&mut self, id: u64) -> (r: Result<(), Error<E>>)
        requires
            old(self).wf(),
            !old(self)@.contains(id),
        ensures
            final(self).wf(),
            if old(self)@.len() < CAP {
                &&& r == Ok::<(), Error<E>>(())
                &&& final(self)@.to_set() == old(self)@.to_set().insert(id)
                &&& final(self)@.len() == old(self)@.len() + 1
            } else {
                &&& r == Err::<(), Error<E>>(Error::NoSpace)
                &&& final(self)@ == old(self)@
            },
    {
        if self.len >= CAP {
            return Err(Error::NoSpace);
        }
        let n: usize = self.len;
        let ghost before = self@;
        let mut i: usize = 0;
        while i < n && self.ids[i] < id
            invariant
                i <= n,
                n == self.len,
                n < CAP,
                forall|k: int| 0 <= k < i ==> self.ids@[k] < id,
            decreases n - i,
        {
            i = i + 1;
        }
        if i < n {
            assert(before[i as int] != id);
        }
        let mut j: usize = n;
        while j > i
            invariant
                i <= j <= n,
                n == self.len,
                n < CAP,
                forall|k: int| 0 <= k < j ==> self.ids@[k] == old(self).ids@[k],
                forall|k: int| j < k <= n ==> #[trigger] self.ids@[k] == old(self).ids@[k - 1],
            decreases j - i,
        {
            let x: u64 = self.ids[j - 1];
            self.ids[j] = x;
            j = j - 1;
        }
        self.ids[i] = id;
        self.len = n + 1;
        proof {
            assert(self@ =~= before.insert(i as int, id));
            assert forall|a: int, b: int| 0 <= a < b < self@.len() implies self@[a] < self@[b] by {
                let x = if a < i { before[a] } else if a == i { id } else { before[a - 1] };
                let y = if b < i { before[b] } else if b == i { id } else { before[b - 1] };
                assert(self@[a] == x);
                assert(self@[b] == y);
                if i < n {
                    assert(before[i as int] > id);
                }
            }
            assert forall|x: u64| self@.to_set().contains(x) <==> before.to_set().insert(
                id,
            ).contains(x) by {
                if before.contains(x) {
                    let k = choose|k: int| 0 <= k < before.len() && before[k] == x;
                    if k < i {
                        assert(self@[k] == x);
                    } else {
                        assert(self@[k + 1] == x);
                    }
                }
                if self@.contains(x) {
                    let k = choose|k: int| 0 <= k < self@.len() && self@[k] == x;
                    if k < i {
                        assert(before[k] == x);
                    } else if k > i {
                        assert(before[k - 1] == x);
                    }
                }
                assert(self@[i as int] == id);
            }
            assert(self@.to_set() =~= before.to_set().insert(id));
        }
        Ok(())
    }

    /// First-fit: the base of the first run of `count` consecutive ids, or
    /// `None`. Does not mutate; pair with [`FreeList::claim_run`] once the
    /// run's use is committed.
    #[must_use]
    pub fn find_run(&self, count: usize) -> (r: Option<u64>)
        requires
            self.wf(),
        ensures
            match r {
                Some(base) => count > 0 && exists|i: int|
                    self@[i] == base && #[trigger] run_at(self@, i, count as int) && forall|j: int|
                        0 <= j < i ==> !#[trigger] run_at(self@, j, count as int),
                None => count == 0 || forall|j: int| !#[trigger] run_at(self@, j, count as int),
            },
    {
        if count == 0 || count > self.len {
            return None;
        }
        let mut i: usize = 0;
        while i <= self.len - count
            invariant
                self.wf(),
                0 < count <= self.len,
                i <= self.len - count + 1,
                forall|j: int| 0 <= j < i ==> !#[trigger] run_at(self@, j, count as int),
            decreases self.len - count + 1 - i,
        {
            if self.is_run(i, count) {
                assert(run_at(self@, i as int, count as int));
                return Some(self.ids[i]);
            }
            i = i + 1;
        }
        None
    }

    /// Whether the `count` ids from position `i` on are consecutive.
    fn is_run(&self, i: usize, count: usize) -> (r: bool)
        requires
            self.wf(),
            i + count <= self@.len(),
            count > 0,
        ensures
            r == run_at(self@, i as int, count as int),
    {
        let base: u64 = self.ids[i];
        assert(base == self@[i as int]);
        let mut k: usize = 0;
        while k < count
            invariant
                self.wf(),
                i + count <= self@.len(),
                self@.len() == self.len,
                k <= count,
                base == self@[i as int],
                forall|m: int| 0 <= m < k ==> #[trigger] self@[i + m] == base + m,
            decreases count - k,
        {
            assert(self.ids@[i + k] == self@[i + k]);
            if self.ids[i + k] < base || self.ids[i + k] - base != k as u64 {
                return false;
            }
            k = k + 1;
        }
        true
    }

    /// Removes `[base, base + count)`; returns `false` (without mutating)
    /// when the run is not fully present. The contiguity re-check makes
    /// `claim_run` safe to call on any base, not just
    /// [`FreeList::find_run`] results.
    pub fn claim_run(&mut self, base: u64, count: usize) -> (r: bool)
        requires
            old(self).wf(),
        ensures
            final(self).wf(),
            r == has_run(old(self)@, base, count as int),
            !r ==> final(self)@ == old(self)@,
            r ==> {
                &&& final(self)@.len() == old(self)@.len() - count
                &&& forall|x: u64|
                    #[trigger] final(self)@.contains(x) <==> old(self)@.contains(x) && !(base <= x
                        < base + count)
            },
    {
        let n: usize = self.len;
        let ghost before = self@;
        let mut i: usize = 0;
        while i < n && self.ids[i] != base
            invariant
                i <= n,
                n == self.len,
                n <= CAP,
                before == self@,
                forall|k: int| 0 <= k < i ==> before[k] != base,
            decreases n - i,
        {
            i = i + 1;
        }
        if i >= n || count > n - i {
            return false;
        }
        assert(before[i as int] == base);
        if count == 0 {
            assert(run_at(before, i as int, 0));
            return true;
        }
        if !self.is_run(i, count) {
            proof {
                if has_run(before, base, count as int) {
                    let k = choose|k: int|
                        0 <= k < before.len() && before[k] == base && #[trigger] run_at(
                            before,
                            k,
                            count as int,
                        );
                    assert(k == i);
                }
            }
            return false;
        }
        let mut j: usize = i + count;
        while j < n
            invariant
                i + count <= j <= n,
                count > 0,
                n == self.len,
                n <= CAP,
                forall|k: int| 0 <= k < i ==> self.ids@[k] == old(self).ids@[k],
                forall|k: int| i <= k < j - count ==> #[trigger] self.ids@[k] == old(self).ids@[k
                    + count],
                forall|k: int| j <= k < n ==> #[trigger] self.ids@[k] == old(self).ids@[k],
            decreases n - j,
        {
            let x: u64 = self.ids[j];
            self.ids[j - count] = x;
            j = j + 1;
        }
        self.len = n - count;
        proof {
            let after = self@;
            assert(after =~= before.take(i as int) + before.skip(i + count));
            assert forall|x: u64| #[trigger] after.contains(x) <==> before.contains(x) && !(base
                <= x < base + count) by {
                if after.contains(x) {
                    let k = choose|k: int| 0 <= k < after.len() && after[k] == x;
                    if k < i {
                        assert(before[k] == x);
                        assert(before[k] < before[i as int]);
                    } else {
                        assert(before[k + count] == x);
                        assert(before[i + (count - 1)] == base + (count - 1));
                        assert(before[i + (count - 1)] < before[k + count]);
                    }
                }
                if before.contains(x) && !(base <= x < base + count) {
                    let k = choose|k: int| 0 <= k < before.len() && before[k] == x;
                    if k < i {
                        assert(after[k] == x);
                    } else if k >= i + count {
                        assert(after[k - count] == x);
                    } else {
                        assert(before[i + (k - i)] == base + (k - i));
                    }
                }
            }
            assert(run_at(before, i as int, count as int));
        }
        true
    }
}

impl<const CAP: usize> Default for FreeList<CAP> {
    fn default() -> (r: Self)
        ensures
            r.wf(),
            r@ == Seq::<u64>::empty(),
    {
        FreeList::new()
    }
}

/// A run found by first-fit can be claimed: a search and a claim of its
/// result never disagree.
pub proof fn law_found_run_claims(s: Seq<u64>, i: int, count: int)
    requires
        strictly_ascending(s),
        count > 0,
        run_at(s, i, count),
    ensures
        has_run(s, s[i], count),
{
    assert(s[i + 0] == s[i]);
}

} // verus!

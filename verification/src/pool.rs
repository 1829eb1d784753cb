//! The items of all levels in one pool.
//!
//! The pool is one array of `LEVELS * TABLES` cells; a level takes any share
//! of it, behind the levels before it. So a level's items lie side by side,
//! and so do those of all levels.

use vstd::prelude::*;

use crate::grid::Grid;

verus! {

/// Items of the first `n` levels.
pub open spec fn items_before<T>(ls: Seq<Seq<T>>, n: int) -> int
    decreases n,
{
    if n <= 0 {
        0
    } else {
        items_before(ls, n - 1) + ls[n - 1].len()
    }
}

/// Changing one level changes the count by what it gained.
pub proof fn lemma_items_update<T>(ls: Seq<Seq<T>>, l: int, row: Seq<T>, n: int)
    requires
        0 <= l < ls.len(),
        0 <= n <= ls.len(),
    ensures
        items_before(ls.update(l, row), n) == items_before(ls, n) + (if n > l {
            row.len() - ls[l].len()
        } else {
            0
        }),
    decreases n,
{
    if n > 0 {
        lemma_items_update(ls, l, row, n - 1);
    }
}

/// Empty levels hold no item.
pub proof fn lemma_items_none<T>(ls: Seq<Seq<T>>, n: int)
    requires
        forall|l: int| 0 <= l < n ==> (#[trigger] ls[l]).len() == 0,
    ensures
        items_before(ls, n) == 0,
    decreases n,
{
    if n > 0 {
        lemma_items_none(ls, n - 1);
    }
}

/// Where level `l` starts.
spec fn starts(counts: Seq<usize>, l: int) -> int
    decreases l,
{
    if l <= 0 {
        0
    } else {
        starts(counts, l - 1) + counts[l - 1]
    }
}

proof fn lemma_starts_mono(counts: Seq<usize>, a: int, b: int)
    requires
        0 <= a <= b <= counts.len(),
    ensures
        0 <= starts(counts, a) <= starts(counts, b),
    decreases b,
{
    if a < b {
        lemma_starts_mono(counts, a, b - 1);
    } else if a > 0 {
        lemma_starts_mono(counts, a - 1, a - 1);
    }
}

/// A level's count shifts the levels behind it.
proof fn lemma_starts_update(counts: Seq<usize>, l: int, n: usize, b: int)
    requires
        0 <= l < counts.len(),
        0 <= b <= counts.len(),
    ensures
        starts(counts.update(l, n), b) == starts(counts, b) + (if b > l {
            n - counts[l]
        } else {
            0
        }),
    decreases b,
{
    if b > 0 {
        lemma_starts_update(counts, l, n, b - 1);
    }
}

/// `LEVELS` lists that share `LEVELS * TABLES` cells.
#[derive(Clone, Copy)]
pub struct Pool<T: Copy, const LEVELS: usize, const TABLES: usize> {
    cells: Grid<T, LEVELS, TABLES>,
    counts: [usize; LEVELS],
}

impl<T: Copy, const LEVELS: usize, const TABLES: usize> View for Pool<T, LEVELS, TABLES> {
    type V = Seq<Seq<T>>;

    /// The items of each level.
    closed spec fn view(&self) -> Seq<Seq<T>> {
        Seq::new(
            LEVELS as nat,
            |l: int|
                self.cells@.subrange(
                    starts(self.counts@, l),
                    starts(self.counts@, l) + self.counts@[l],
                ),
        )
    }
}

impl<T: Copy, const LEVELS: usize, const TABLES: usize> Pool<T, LEVELS, TABLES> {
    /// The levels' items fit the pool.
    pub closed spec fn wf(&self) -> bool {
        &&& starts(self.counts@, LEVELS as int) <= LEVELS * TABLES
        &&& LEVELS * TABLES <= usize::MAX
    }

    /// The items of the first `n` levels, one after the other.
    pub closed spec fn front(&self, n: int) -> Seq<T> {
        self.cells@.take(starts(self.counts@, n))
    }

    proof fn lemma_row(&self, l: int)
        requires
            self.wf(),
            0 <= l < LEVELS,
        ensures
            0 <= starts(self.counts@, l),
            starts(self.counts@, l + 1) == starts(self.counts@, l) + self.counts@[l],
            starts(self.counts@, l + 1) <= starts(self.counts@, LEVELS as int),
            self.cells@.len() == LEVELS * TABLES,
            self@[l].len() == self.counts@[l],
            forall|i: int|
                0 <= i < self.counts@[l] ==> #[trigger] self@[l][i] == self.cells@[starts(
                    self.counts@,
                    l,
                ) + i],
    {
        lemma_starts_mono(self.counts@, 0, l);
        lemma_starts_mono(self.counts@, l + 1, LEVELS as int);
        self.cells.lemma_len();
    }

    proof fn lemma_starts_are(&self, n: int)
        requires
            self.wf(),
            0 <= n <= LEVELS,
        ensures
            starts(self.counts@, n) == items_before(self@, n),
        decreases n,
    {
        if n > 0 {
            self.lemma_starts_are(n - 1);
            self.lemma_row(n - 1);
        }
    }

    /// How many levels there are, and that their items fit the pool.
    pub proof fn lemma_wf(&self)
        requires
            self.wf(),
        ensures
            self@.len() == LEVELS,
            items_before(self@, LEVELS as int) <= LEVELS * TABLES <= usize::MAX,
    {
        self.lemma_starts_are(LEVELS as int);
    }

    /// The items of the first levels are those of each, joined.
    pub proof fn lemma_front(&self, n: int)
        requires
            self.wf(),
            0 <= n < LEVELS,
        ensures
            self.front(0) == Seq::<T>::empty(),
            self.front(n + 1) == self.front(n) + self@[n],
    {
        self.lemma_row(n);
        assert(self.front(0) =~= Seq::<T>::empty());
        assert(self.front(n + 1) =~= self.front(n) + self@[n]);
    }

    /// Levels without an item; `x` only fills the cells.
    pub fn new(x: T) -> (r: Self)
        ensures
            LEVELS * TABLES <= usize::MAX ==> r.wf(),
            r@ == Seq::new(LEVELS as nat, |l: int| Seq::<T>::empty()),
    {
        let r = Pool { cells: Grid::filled(x), counts: [0; LEVELS] };
        proof {
            Self::lemma_none(r.counts@, LEVELS as int);
            r.cells.lemma_len();
            assert forall|l: int| 0 <= l < LEVELS implies #[trigger] r@[l] =~= Seq::<T>::empty() by {
                Self::lemma_none(r.counts@, l);
            }
            assert(r@ =~= Seq::new(LEVELS as nat, |l: int| Seq::<T>::empty()));
            assert(LEVELS * TABLES >= 0) by (nonlinear_arith)
                requires
                    LEVELS >= 0,
                    TABLES >= 0,
            ;
        }
        r
    }

    proof fn lemma_none(counts: Seq<usize>, n: int)
        requires
            forall|i: int| 0 <= i < counts.len() ==> #[trigger] counts[i] == 0,
            0 <= n <= counts.len(),
        ensures
            starts(counts, n) == 0,
        decreases n,
    {
        if n > 0 {
            Self::lemma_none(counts, n - 1);
        }
    }

    /// Where level `l` starts; with `LEVELS`, where the free cells do.
    fn start(&self, l: usize) -> (r: usize)
        requires
            self.wf(),
            l <= LEVELS,
        ensures
            r == starts(self.counts@, l as int),
    {
        let mut n: usize = 0;
        let mut i: usize = 0;
        while i < l
            invariant
                self.wf(),
                i <= l <= LEVELS,
                n == starts(self.counts@, i as int),
            decreases l - i,
        {
            proof {
                self.lemma_row(i as int);
            }
            n = n + self.counts[i];
            i = i + 1;
        }
        n
    }

    /// Items of level `l`.
    pub fn count(&self, l: usize) -> (r: usize)
        requires
            self.wf(),
            l < LEVELS,
        ensures
            r == self@[l as int].len(),
    {
        proof {
            self.lemma_row(l as int);
        }
        self.counts[l]
    }

    /// Items of all levels.
    pub fn used(&self) -> (r: usize)
        requires
            self.wf(),
        ensures
            r == items_before(self@, LEVELS as int),
    {
        proof {
            self.lemma_starts_are(LEVELS as int);
        }
        self.start(LEVELS)
    }

    /// The items of level `l`.
    pub fn row(&self, l: usize) -> (r: &[T])
        requires
            self.wf(),
            l < LEVELS,
        ensures
            r@ == self@[l as int],
    {
        proof {
            self.lemma_row(l as int);
        }
        let a: usize = self.start(l);
        let b: usize = a + self.counts[l];
        let r: &[T] = &self.cells.as_slice()[a..b];
        assert(r@ =~= self@[l as int]);
        r
    }

    /// The items of all levels, level by level.
    pub fn all(&self) -> (r: &[T])
        requires
            self.wf(),
        ensures
            r@ == self.front(LEVELS as int),
    {
        proof {
            lemma_starts_mono(self.counts@, 0, LEVELS as int);
            self.cells.lemma_len();
        }
        let b: usize = self.start(LEVELS);
        let r: &[T] = &self.cells.as_slice()[0..b];
        assert(r@ =~= self.front(LEVELS as int));
        r
    }

    /// Overwrites item `pos` of level `l`.
    pub fn put(&mut self, l: usize, pos: usize, x: T)
        requires
            old(self).wf(),
            l < LEVELS,
            pos < old(self)@[l as int].len(),
        ensures
            final(self).wf(),
            final(self)@ == old(self)@.update(l as int, old(self)@[l as int].update(pos as int, x)),
    {
        let ghost a = *self;
        proof {
            self.lemma_row(l as int);
        }
        let p: usize = self.start(l) + pos;
        self.cells.set(p, x);
        proof {
            assert forall|m: int| 0 <= m < LEVELS implies #[trigger] self@[m] == a@.update(
                l as int,
                a@[l as int].update(pos as int, x),
            )[m] by {
                a.lemma_row(m);
                self.lemma_row(m);
                if m < l {
                    lemma_starts_mono(a.counts@, m + 1, l as int);
                } else if m > l {
                    lemma_starts_mono(a.counts@, l + 1, m);
                }
                assert(self@[m] =~= a@.update(l as int, a@[l as int].update(pos as int, x))[m]);
            }
            assert(self@ =~= a@.update(l as int, a@[l as int].update(pos as int, x)));
        }
    }

    /// Puts an item at `pos` of level `l`; those behind move up.
    pub fn insert(&mut self, l: usize, pos: usize, x: T)
        requires
            old(self).wf(),
            l < LEVELS,
            pos <= old(self)@[l as int].len(),
            items_before(old(self)@, LEVELS as int) < LEVELS * TABLES,
        ensures
            final(self).wf(),
            final(self)@ == old(self)@.update(l as int, old(self)@[l as int].insert(pos as int, x)),
    {
        let ghost a = *self;
        proof {
            self.lemma_row(l as int);
            self.lemma_starts_are(LEVELS as int);
        }
        let p: usize = self.start(l) + pos;
        let n: usize = self.start(LEVELS);
        let mut i: usize = n;
        while i > p
            invariant
                a.wf(),
                self.counts == a.counts,
                p <= i <= n,
                n < LEVELS * TABLES <= usize::MAX,
                n == starts(a.counts@, LEVELS as int),
                a.cells@.len() == LEVELS * TABLES,
                self.cells@.len() == LEVELS * TABLES,
                forall|j: int| 0 <= j <= i ==> #[trigger] self.cells@[j] == a.cells@[j],
                forall|j: int| i < j <= n ==> #[trigger] self.cells@[j] == a.cells@[j - 1],
            decreases i - p,
        {
            let t: T = *self.cells.at(i - 1);
            self.cells.set(i, t);
            i = i - 1;
        }
        self.cells.set(p, x);
        let c: usize = self.counts[l];
        self.counts[l] = c + 1;
        proof {
            let s = a.counts@;
            let w = s.update(l as int, (c + 1) as usize);
            assert(self.counts@ =~= w);
            lemma_starts_update(s, l as int, (c + 1) as usize, LEVELS as int);
            assert forall|m: int| 0 <= m < LEVELS implies #[trigger] self@[m] == a@.update(
                l as int,
                a@[l as int].insert(pos as int, x),
            )[m] by {
                lemma_starts_update(s, l as int, (c + 1) as usize, m);
                a.lemma_row(m);
                self.lemma_row(m);
                if m < l {
                    lemma_starts_mono(s, m + 1, l as int);
                } else if m > l {
                    lemma_starts_mono(s, l + 1, m);
                }
                assert(self@[m] =~= a@.update(l as int, a@[l as int].insert(pos as int, x))[m]);
            }
            assert(self@ =~= a@.update(l as int, a@[l as int].insert(pos as int, x)));
        }
    }

    /// Takes the item at `pos` out of level `l`; those behind move down.
    pub fn remove(&mut self, l: usize, pos: usize)
        requires
            old(self).wf(),
            l < LEVELS,
            pos < old(self)@[l as int].len(),
        ensures
            final(self).wf(),
            final(self)@ == old(self)@.update(l as int, old(self)@[l as int].remove(pos as int)),
    {
        let ghost a = *self;
        proof {
            self.lemma_row(l as int);
        }
        let p: usize = self.start(l) + pos;
        let n: usize = self.start(LEVELS);
        let mut i: usize = p;
        while i + 1 < n
            invariant
                a.wf(),
                self.counts == a.counts,
                p <= i < n,
                n <= LEVELS * TABLES <= usize::MAX,
                a.cells@.len() == LEVELS * TABLES,
                self.cells@.len() == LEVELS * TABLES,
                forall|j: int| 0 <= j < p ==> #[trigger] self.cells@[j] == a.cells@[j],
                forall|j: int| p <= j < i ==> #[trigger] self.cells@[j] == a.cells@[j + 1],
                forall|j: int| i <= j < n ==> #[trigger] self.cells@[j] == a.cells@[j],
            decreases n - i,
        {
            let t: T = *self.cells.at(i + 1);
            self.cells.set(i, t);
            i = i + 1;
        }
        let c: usize = self.counts[l];
        self.counts[l] = c - 1;
        proof {
            let s = a.counts@;
            let w = s.update(l as int, (c - 1) as usize);
            assert(self.counts@ =~= w);
            lemma_starts_update(s, l as int, (c - 1) as usize, LEVELS as int);
            assert forall|m: int| 0 <= m < LEVELS implies #[trigger] self@[m] == a@.update(
                l as int,
                a@[l as int].remove(pos as int),
            )[m] by {
                lemma_starts_update(s, l as int, (c - 1) as usize, m);
                a.lemma_row(m);
                self.lemma_row(m);
                if m < l {
                    lemma_starts_mono(s, m + 1, l as int);
                } else if m > l {
                    lemma_starts_mono(s, l + 1, m);
                }
                assert(self@[m] =~= a@.update(l as int, a@[l as int].remove(pos as int))[m]);
            }
            assert(self@ =~= a@.update(l as int, a@[l as int].remove(pos as int)));
        }
    }
}

} // verus!

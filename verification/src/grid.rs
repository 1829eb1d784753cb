//! A fixed number of rows and columns, used as one array of cells.

use vstd::prelude::*;

verus! {

/// `<[[Elem; LEN]]>::as_flattened` of the standard library: the elements of
/// the arrays as one slice, array after array. It panics where so many
/// elements are more than a `usize` counts.
pub assume_specification<Elem, const LEN: usize>[ <[[Elem; LEN]]>::as_flattened ](
    arrays: &[[Elem; LEN]],
) -> (r: &[Elem])
    requires
        arrays@.len() * LEN <= usize::MAX,
    ensures
        r@.len() == arrays@.len() * LEN,
        forall|i: int|
            0 <= i < r@.len() ==> #[trigger] r@[i] == arrays@[i / LEN as int]@[i % LEN as int],
;

/// `ROWS * COLS` cells, numbered row by row.
#[derive(Clone, Copy)]
pub struct Grid<T: Copy, const ROWS: usize, const COLS: usize> {
    cells: [[T; COLS]; ROWS],
}

/// The row and column of a cell are its alone.
proof fn lemma_cell(i: int, rows: int, cols: int)
    requires
        0 <= i < rows * cols,
        0 <= rows,
        0 <= cols,
    ensures
        0 <= i / cols < rows,
        0 <= i % cols < cols,
        i == (i / cols) * cols + i % cols,
{
    assert(cols > 0) by (nonlinear_arith)
        requires
            0 <= i < rows * cols,
            0 <= cols,
    ;
    vstd::arithmetic::div_mod::lemma_fundamental_div_mod(i, cols);
    assert(0 <= i / cols < rows) by (nonlinear_arith)
        requires
            cols > 0,
            0 <= i < rows * cols,
    ;
    assert(cols * (i / cols) == (i / cols) * cols) by (nonlinear_arith);
}

impl<T: Copy, const ROWS: usize, const COLS: usize> View for Grid<T, ROWS, COLS> {
    type V = Seq<T>;

    /// The cells in order.
    closed spec fn view(&self) -> Seq<T> {
        Seq::new(
            (ROWS * COLS) as nat,
            |i: int| self.cells@[i / COLS as int]@[i % COLS as int],
        )
    }
}

impl<T: Copy, const ROWS: usize, const COLS: usize> Grid<T, ROWS, COLS> {
    /// Every cell is there.
    pub proof fn lemma_len(&self)
        ensures
            self@.len() == ROWS * COLS,
    {
    }

    /// The same value in every cell.
    pub fn filled(x: T) -> (r: Self)
        ensures
            r@ == Seq::new((ROWS * COLS) as nat, |i: int| x),
    {
        let row: [T; COLS] = [x; COLS];
        let r = Grid { cells: [row; ROWS] };
        proof {
            assert forall|i: int| 0 <= i < ROWS * COLS implies #[trigger] r@[i] == x by {
                lemma_cell(i, ROWS as int, COLS as int);
            }
            assert(r@ =~= Seq::new((ROWS * COLS) as nat, |i: int| x));
        }
        r
    }

    /// The cells as a slice.
    pub fn as_slice(&self) -> (r: &[T])
        requires
            ROWS * COLS <= usize::MAX,
        ensures
            r@ == self@,
    {
        let rows: &[[T; COLS]] = self.cells.as_slice();
        let r: &[T] = rows.as_flattened();
        assert(r@ =~= self@);
        r
    }

    /// One cell.
    pub fn at(&self, i: usize) -> (r: &T)
        requires
            i < ROWS * COLS,
        ensures
            *r == self@[i as int],
    {
        proof {
            lemma_cell(i as int, ROWS as int, COLS as int);
        }
        &self.cells[i / COLS][i % COLS]
    }

    /// Overwrites one cell.
    pub fn set(&mut self, i: usize, x: T)
        requires
            i < ROWS * COLS,
        ensures
            final(self)@ == old(self)@.update(i as int, x),
    {
        proof {
            lemma_cell(i as int, ROWS as int, COLS as int);
        }
        self.cells[i / COLS][i % COLS] = x;
        proof {
            Self::lemma_put(*old(self), *self, i as int, x);
        }
    }

    /// One cell, to change in place.
    pub fn cell_mut(&mut self, i: usize) -> (r: &mut T)
        requires
            i < ROWS * COLS,
        ensures
            *r == old(self)@[i as int],
            final(self)@ == old(self)@.update(i as int, *final(r)),
    {
        proof {
            lemma_cell(i as int, ROWS as int, COLS as int);
        }
        proof {
            assert forall|b: Self, x: T|
                #![trigger b@, old(self)@.update(i as int, x)]
                Self::put_in(*old(self), b, i as int, x) implies b@ == old(self)@.update(
                i as int,
                x,
            ) by {
                Self::lemma_put(*old(self), b, i as int, x);
            }
        }
        &mut self.cells[i / COLS][i % COLS]
    }

    /// Cell `i` of `b` holds `x`, the others what they hold in `a`.
    spec fn put_in(a: Self, b: Self, i: int, x: T) -> bool {
        forall|p: int, q: int|
            0 <= p < ROWS && 0 <= q < COLS ==> #[trigger] b.cells@[p]@[q] == (if p == i
                / COLS as int && q == i % COLS as int {
                x
            } else {
                a.cells@[p]@[q]
            })
    }

    proof fn lemma_put(a: Self, b: Self, i: int, x: T)
        requires
            0 <= i < ROWS * COLS,
            Self::put_in(a, b, i, x),
        ensures
            b@ == a@.update(i, x),
    {
        lemma_cell(i, ROWS as int, COLS as int);
        assert forall|j: int| 0 <= j < ROWS * COLS implies #[trigger] b@[j] == a@.update(i, x)[j] by {
            lemma_cell(j, ROWS as int, COLS as int);
        }
        assert(b@ =~= a@.update(i, x));
    }
}

/// A list of up to `ROWS * COLS` items, held in place.
pub struct List<T: Copy, const ROWS: usize, const COLS: usize> {
    cells: Grid<T, ROWS, COLS>,
    len: usize,
}

impl<T: Copy, const ROWS: usize, const COLS: usize> View for List<T, ROWS, COLS> {
    type V = Seq<T>;

    /// The items in order.
    closed spec fn view(&self) -> Seq<T> {
        self.cells@.take(self.len as int)
    }
}

impl<T: Copy, const ROWS: usize, const COLS: usize> List<T, ROWS, COLS> {
    /// The items fit the cells.
    pub closed spec fn wf(&self) -> bool {
        self.len <= ROWS * COLS
    }

    /// An empty list; `x` only fills its cells.
    pub fn new(x: T) -> (r: Self)
        ensures
            r.wf(),
            r@ == Seq::<T>::empty(),
    {
        let r = List { cells: Grid::filled(x), len: 0 };
        assert(r@ =~= Seq::<T>::empty());
        r
    }

    /// The number of items.
    pub fn len(&self) -> (r: usize)
        requires
            self.wf(),
        ensures
            r == self@.len(),
    {
        proof {
            self.cells.lemma_len();
        }
        self.len
    }

    /// Drops every item.
    pub fn clear(&mut self)
        ensures
            final(self).wf(),
            final(self)@ == Seq::<T>::empty(),
    {
        self.len = 0;
        assert(self@ =~= Seq::<T>::empty());
    }

    /// Adds an item at the end.
    pub fn push(&mut self, x: T)
        requires
            old(self).wf(),
            old(self)@.len() < ROWS * COLS,
            ROWS * COLS <= usize::MAX,
        ensures
            final(self).wf(),
            final(self)@ == old(self)@.push(x),
    {
        proof {
            self.cells.lemma_len();
        }
        self.cells.set(self.len, x);
        self.len = self.len + 1;
        proof {
            self.cells.lemma_len();
            assert(self@ =~= old(self)@.push(x));
        }
    }

    /// Item `i`.
    pub fn at(&self, i: usize) -> (r: &T)
        requires
            self.wf(),
            i < self@.len(),
        ensures
            *r == self@[i as int],
    {
        proof {
            self.cells.lemma_len();
        }
        self.cells.at(i)
    }

    /// Item `i`, to change in place.
    pub fn at_mut(&mut self, i: usize) -> (r: &mut T)
        requires
            old(self).wf(),
            i < old(self)@.len(),
        ensures
            *r == old(self)@[i as int],
            final(self).wf(),
            final(self)@ == old(self)@.update(i as int, *final(r)),
    {
        let ghost n = self.len as int;
        proof {
            self.cells.lemma_len();
            assert forall|s: Seq<T>, x: T|
                s.len() == ROWS * COLS implies #[trigger] s.update(i as int, x).take(n) == s.take(
                n,
            ).update(i as int, x) by {
                assert(s.update(i as int, x).take(n) =~= s.take(n).update(i as int, x));
            }
        }
        self.cells.cell_mut(i)
    }
}

} // verus!

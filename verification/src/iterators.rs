//! Cursors over the cells of a matrix, from either end.

use crate::traits::Matrix;
use vstd::prelude::*;

verus! {

/// The cells of row `row` of `m`, left to right; none if `m` has no such row.
pub open spec fn row_values<M: Matrix>(m: &M, row: usize) -> Seq<M::Item> {
    if row < m.grid().height() {
        m.grid().rows[row as int]
    } else {
        Seq::empty()
    }
}

/// The cells of column `column` of `m`, top to bottom; none if `m` has no such column.
pub open spec fn column_values<M: Matrix>(m: &M, column: usize) -> Seq<M::Item> {
    if column < m.grid().width {
        Seq::new(m.grid().height(), |k: int| m.grid().rows[k][column as int])
    } else {
        Seq::empty()
    }
}

/// A cursor over the cells of one row of a matrix.
pub struct Row<'a, T> {
    origin: &'a T,
    row: usize,
    left: usize,
    right: usize,
}

impl<'a, M: Matrix> Row<'a, M> {
    pub closed spec fn wf(&self) -> bool {
        &&& self.origin.wf()
        &&& self.left + self.right <= self.origin.grid().width
    }

    /// The matrix that the cursor reads.
    pub closed spec fn origin(&self) -> &'a M {
        self.origin
    }

    /// The cells still to come, in the order in which `next` hands them out.
    pub closed spec fn remaining(&self) -> Seq<M::Item> {
        if self.row < self.origin.grid().height() {
            self.origin.grid().rows[self.row as int].subrange(
                self.left as int,
                self.origin.grid().width - self.right,
            )
        } else {
            Seq::empty()
        }
    }

    /// The positions that the cursor has not passed, whether the row exists or not.
    pub closed spec fn pending(&self) -> nat {
        (self.origin.grid().width - self.left - self.right) as nat
    }

    /// Where the row exists, every position not passed holds a cell still to come.
    pub proof fn lemma_pending(&self)
        requires
            self.wf(),
        ensures
            self.remaining().len() == 0 || self.remaining().len() == self.pending(),
    {
        self.origin.lemma_grid_wf();
        if self.row < self.origin.grid().height() {
            assert(self.origin.grid().rows[self.row as int].len() == self.origin.grid().width);
        }
    }

    pub fn new(origin: &'a M, row: usize) -> (made: Row<'a, M>)
        requires
            origin.wf(),
        ensures
            made.wf(),
            made.origin() == origin,
            made.remaining() == row_values(origin, row),
    {
        let made = Row { origin, row, left: 0, right: 0 };
        proof {
            origin.lemma_grid_wf();
            if row < origin.grid().height() {
                assert(origin.grid().rows[row as int].len() == origin.grid().width);
                assert(made.remaining() =~= row_values(origin, row));
            }
        }
        made
    }

    /// Hands out the first of the cells that remain.
    pub fn next(&mut self) -> (cell: Option<&'a M::Item>)
        requires
            old(self).wf(),
        ensures
            final(self).wf(),
            final(self).origin() == old(self).origin(),
            old(self).remaining().len() == 0 ==> cell is None && final(self).remaining().len()
                == 0,
            old(self).remaining().len() > 0 ==> cell is Some && *cell.unwrap() == old(self).remaining().first() && final(self).remaining() == old(self).remaining().drop_first(),
    {
        proof {
            self.origin.lemma_grid_wf();
            if self.row < self.origin.grid().height() {
                assert(self.origin.grid().rows[self.row as int].len() == self.origin.grid().width);
            }
        }
        if self.left < self.origin.width() - self.right {
            let cell = self.origin.at(self.row, self.left);
            self.left += 1;
            proof {
                if self.row < self.origin.grid().height() {
                    assert(self.remaining() =~= old(self).remaining().drop_first());
                }
            }
            cell
        } else {
            None
        }
    }

    /// How many positions the cursor has not passed, as a lower and an upper bound.
    pub fn size_hint(&self) -> (hint: (usize, Option<usize>))
        requires
            self.wf(),
        ensures
            hint.0 == self.pending(),
            hint.1 == Some(hint.0),
    {
        let rest = self.origin.width() - self.left - self.right;
        (rest, Some(rest))
    }

    /// Hands out the last of the cells that remain.
    pub fn next_back(&mut self) -> (cell: Option<&'a M::Item>)
        requires
            old(self).wf(),
        ensures
            final(self).wf(),
            final(self).origin() == old(self).origin(),
            old(self).remaining().len() == 0 ==> cell is None && final(self).remaining().len()
                == 0,
            old(self).remaining().len() > 0 ==> cell is Some && *cell.unwrap() == old(self).remaining().last() && final(self).remaining() == old(self).remaining().drop_last(),
    {
        proof {
            self.origin.lemma_grid_wf();
            if self.row < self.origin.grid().height() {
                assert(self.origin.grid().rows[self.row as int].len() == self.origin.grid().width);
            }
        }
        let w = self.origin.width();
        if self.left < w - self.right {
            let cell = self.origin.at(self.row, w - self.right - 1);
            self.right += 1;
            proof {
                if self.row < self.origin.grid().height() {
                    assert(self.remaining() =~= old(self).remaining().drop_last());
                }
            }
            cell
        } else {
            None
        }
    }
}

/// A cursor over the rows of a matrix, each handed out as a cursor over its cells.
pub struct Rows<'a, T> {
    origin: &'a T,
    left: usize,
    right: usize,
}

impl<'a, M: Matrix> Rows<'a, M> {
    pub closed spec fn wf(&self) -> bool {
        &&& self.origin.wf()
        &&& self.left + self.right <= self.origin.grid().height()
    }

    /// The matrix that the cursor reads.
    pub closed spec fn origin(&self) -> &'a M {
        self.origin
    }

    /// The rows still to come.
    pub closed spec fn remaining(&self) -> Seq<usize> {
        Seq::new(
            (self.origin.grid().height() - self.left - self.right) as nat,
            |k: int| (self.left + k) as usize,
        )
    }

    pub fn new(origin: &'a M) -> (made: Rows<'a, M>)
        requires
            origin.wf(),
        ensures
            made.wf(),
            made.origin() == origin,
            made.remaining() == Seq::new(origin.grid().height(), |k: int| k as usize),
    {
        let made = Rows { origin, left: 0, right: 0 };
        proof {
            assert(made.remaining() =~= Seq::new(origin.grid().height(), |k: int| k as usize));
        }
        made
    }

    /// Hands out a cursor over the first of the rows that remain.
    pub fn next(&mut self) -> (row: Option<Row<'a, M>>)
        requires
            old(self).wf(),
        ensures
            final(self).wf(),
            final(self).origin() == old(self).origin(),
            old(self).remaining().len() == 0 ==> row is None && *final(self) == *old(self),
            old(self).remaining().len() > 0 ==> row is Some && row.unwrap().wf()
                && row.unwrap().origin() == old(self).origin() && row.unwrap().remaining()
                == row_values(old(self).origin(), old(self).remaining().first()) && final(self).remaining() == old(self).remaining().drop_first(),
    {
        proof {
            self.origin.lemma_grid_wf();
        }
        if self.left < self.origin.height() - self.right {
            let row = Row::new(self.origin, self.left);
            self.left += 1;
            proof {
                assert(self.remaining() =~= old(self).remaining().drop_first());
            }
            Some(row)
        } else {
            None
        }
    }

    /// How many rows are still to come, as a lower and an upper bound.
    pub fn size_hint(&self) -> (hint: (usize, Option<usize>))
        requires
            self.wf(),
        ensures
            hint.0 == self.remaining().len(),
            hint.1 == Some(hint.0),
    {
        let rest = self.origin.height() - self.left - self.right;
        (rest, Some(rest))
    }

    /// Hands out a cursor over the last of the rows that remain.
    pub fn next_back(&mut self) -> (row: Option<Row<'a, M>>)
        requires
            old(self).wf(),
        ensures
            final(self).wf(),
            final(self).origin() == old(self).origin(),
            old(self).remaining().len() == 0 ==> row is None && *final(self) == *old(self),
            old(self).remaining().len() > 0 ==> row is Some && row.unwrap().wf()
                && row.unwrap().origin() == old(self).origin() && row.unwrap().remaining()
                == row_values(old(self).origin(), old(self).remaining().last()) && final(self).remaining() == old(self).remaining().drop_last(),
    {
        proof {
            self.origin.lemma_grid_wf();
        }
        let h = self.origin.height();
        if self.left < h - self.right {
            let row = Row::new(self.origin, h - self.right - 1);
            self.right += 1;
            proof {
                assert(self.remaining() =~= old(self).remaining().drop_last());
            }
            Some(row)
        } else {
            None
        }
    }
}

/// A cursor over the cells of one column of a matrix.
pub struct Column<'a, T> {
    origin: &'a T,
    column: usize,
    left: usize,
    right: usize,
}

impl<'a, M: Matrix> Column<'a, M> {
    pub closed spec fn wf(&self) -> bool {
        &&& self.origin.wf()
        &&& self.left + self.right <= self.origin.grid().height()
    }

    /// The matrix that the cursor reads.
    pub closed spec fn origin(&self) -> &'a M {
        self.origin
    }

    /// The cells still to come, in the order in which `next` hands them out.
    pub closed spec fn remaining(&self) -> Seq<M::Item> {
        if self.column < self.origin.grid().width {
            column_values(self.origin, self.column).subrange(
                self.left as int,
                self.origin.grid().height() - self.right,
            )
        } else {
            Seq::empty()
        }
    }

    /// The positions that the cursor has not passed, whether the column exists or not.
    pub closed spec fn pending(&self) -> nat {
        (self.origin.grid().height() - self.left - self.right) as nat
    }

    /// Where the column exists, every position not passed holds a cell still to come.
    pub proof fn lemma_pending(&self)
        requires
            self.wf(),
        ensures
            self.remaining().len() == 0 || self.remaining().len() == self.pending(),
    {
    }

    pub fn new(origin: &'a M, column: usize) -> (made: Column<'a, M>)
        requires
            origin.wf(),
        ensures
            made.wf(),
            made.origin() == origin,
            made.remaining() == column_values(origin, column),
    {
        let made = Column { origin, column, left: 0, right: 0 };
        proof {
            assert(made.remaining() =~= column_values(origin, column));
        }
        made
    }

    /// Hands out the first of the cells that remain.
    pub fn next(&mut self) -> (cell: Option<&'a M::Item>)
        requires
            old(self).wf(),
        ensures
            final(self).wf(),
            final(self).origin() == old(self).origin(),
            old(self).remaining().len() == 0 ==> cell is None && final(self).remaining().len()
                == 0,
            old(self).remaining().len() > 0 ==> cell is Some && *cell.unwrap() == old(self).remaining().first() && final(self).remaining() == old(self).remaining().drop_first(),
    {
        proof {
            self.origin.lemma_grid_wf();
        }
        if self.left < self.origin.height() - self.right {
            let cell = self.origin.at(self.left, self.column);
            self.left += 1;
            proof {
                if self.column < self.origin.grid().width {
                    assert(self.remaining() =~= old(self).remaining().drop_first());
                }
            }
            cell
        } else {
            None
        }
    }

    /// How many positions the cursor has not passed, as a lower and an upper bound.
    pub fn size_hint(&self) -> (hint: (usize, Option<usize>))
        requires
            self.wf(),
        ensures
            hint.0 == self.pending(),
            hint.1 == Some(hint.0),
    {
        let rest = self.origin.height() - self.left - self.right;
        (rest, Some(rest))
    }

    /// Hands out the last of the cells that remain.
    pub fn next_back(&mut self) -> (cell: Option<&'a M::Item>)
        requires
            old(self).wf(),
        ensures
            final(self).wf(),
            final(self).origin() == old(self).origin(),
            old(self).remaining().len() == 0 ==> cell is None && final(self).remaining().len()
                == 0,
            old(self).remaining().len() > 0 ==> cell is Some && *cell.unwrap() == old(self).remaining().last() && final(self).remaining() == old(self).remaining().drop_last(),
    {
        proof {
            self.origin.lemma_grid_wf();
        }
        let h = self.origin.height();
        if self.left < h - self.right {
            let cell = self.origin.at(h - self.right - 1, self.column);
            self.right += 1;
            proof {
                if self.column < self.origin.grid().width {
                    assert(self.remaining() =~= old(self).remaining().drop_last());
                }
            }
            cell
        } else {
            None
        }
    }
}

/// A cursor over the columns of a matrix, each handed out as a cursor over its cells.
pub struct Columns<'a, T> {
    origin: &'a T,
    left: usize,
    right: usize,
}

impl<'a, M: Matrix> Columns<'a, M> {
    pub closed spec fn wf(&self) -> bool {
        &&& self.origin.wf()
        &&& self.left + self.right <= self.origin.grid().width
    }

    /// The matrix that the cursor reads.
    pub closed spec fn origin(&self) -> &'a M {
        self.origin
    }

    /// The columns still to come.
    pub closed spec fn remaining(&self) -> Seq<usize> {
        Seq::new(
            (self.origin.grid().width - self.left - self.right) as nat,
            |k: int| (self.left + k) as usize,
        )
    }

    pub fn new(origin: &'a M) -> (made: Columns<'a, M>)
        requires
            origin.wf(),
        ensures
            made.wf(),
            made.origin() == origin,
            made.remaining() == Seq::new(origin.grid().width, |k: int| k as usize),
    {
        let made = Columns { origin, left: 0, right: 0 };
        proof {
            assert(made.remaining() =~= Seq::new(origin.grid().width, |k: int| k as usize));
        }
        made
    }

    /// Hands out a cursor over the first of the columns that remain.
    pub fn next(&mut self) -> (column: Option<Column<'a, M>>)
        requires
            old(self).wf(),
        ensures
            final(self).wf(),
            final(self).origin() == old(self).origin(),
            old(self).remaining().len() == 0 ==> column is None && *final(self) == *old(self),
            old(self).remaining().len() > 0 ==> column is Some && column.unwrap().wf()
                && column.unwrap().origin() == old(self).origin() && column.unwrap().remaining()
                == column_values(old(self).origin(), old(self).remaining().first()) && final(self).remaining() == old(self).remaining().drop_first(),
    {
        proof {
            self.origin.lemma_grid_wf();
        }
        if self.left < self.origin.width() - self.right {
            let column = Column::new(self.origin, self.left);
            self.left += 1;
            proof {
                assert(self.remaining() =~= old(self).remaining().drop_first());
            }
            Some(column)
        } else {
            None
        }
    }

    /// How many columns are still to come, as a lower and an upper bound.
    pub fn size_hint(&self) -> (hint: (usize, Option<usize>))
        requires
            self.wf(),
        ensures
            hint.0 == self.remaining().len(),
            hint.1 == Some(hint.0),
    {
        let rest = self.origin.width() - self.left - self.right;
        (rest, Some(rest))
    }

    /// Hands out a cursor over the last of the columns that remain.
    pub fn next_back(&mut self) -> (column: Option<Column<'a, M>>)
        requires
            old(self).wf(),
        ensures
            final(self).wf(),
            final(self).origin() == old(self).origin(),
            old(self).remaining().len() == 0 ==> column is None && *final(self) == *old(self),
            old(self).remaining().len() > 0 ==> column is Some && column.unwrap().wf()
                && column.unwrap().origin() == old(self).origin() && column.unwrap().remaining()
                == column_values(old(self).origin(), old(self).remaining().last()) && final(self).remaining() == old(self).remaining().drop_last(),
    {
        proof {
            self.origin.lemma_grid_wf();
        }
        let w = self.origin.width();
        if self.left < w - self.right {
            let column = Column::new(self.origin, w - self.right - 1);
            self.right += 1;
            proof {
                assert(self.remaining() =~= old(self).remaining().drop_last());
            }
            Some(column)
        } else {
            None
        }
    }
}

/// Anything that can name a matrix can hand out cursors over its cells.
pub trait Iteratable<M: Matrix> {
    /// The matrix that `origin` returns.
    spec fn spec_origin(&self) -> &M;

    fn origin(&self) -> (origin: &M)
        ensures
            origin == self.spec_origin(),
    ;

    /// A cursor over the cells of row `row`.
    fn row(&self, row: usize) -> (cursor: Row<'_, M>)
        requires
            self.spec_origin().wf(),
        ensures
            cursor.wf(),
            cursor.origin() == self.spec_origin(),
            cursor.remaining() == row_values(self.spec_origin(), row),
    {
        Row::new(self.origin(), row)
    }

    /// A cursor over the cells of column `column`.
    fn column(&self, column: usize) -> (cursor: Column<'_, M>)
        requires
            self.spec_origin().wf(),
        ensures
            cursor.wf(),
            cursor.origin() == self.spec_origin(),
            cursor.remaining() == column_values(self.spec_origin(), column),
    {
        Column::new(self.origin(), column)
    }

    /// A cursor over the rows.
    fn rows(&self) -> (cursor: Rows<'_, M>)
        requires
            self.spec_origin().wf(),
        ensures
            cursor.wf(),
            cursor.origin() == self.spec_origin(),
            cursor.remaining() == Seq::new(
                self.spec_origin().grid().height(),
                |k: int| k as usize,
            ),
    {
        Rows::new(self.origin())
    }

    /// A cursor over the columns.
    fn columns(&self) -> (cursor: Columns<'_, M>)
        requires
            self.spec_origin().wf(),
        ensures
            cursor.wf(),
            cursor.origin() == self.spec_origin(),
            cursor.remaining() == Seq::new(
                self.spec_origin().grid().width,
                |k: int| k as usize,
            ),
    {
        Columns::new(self.origin())
    }
}

impl<M: Matrix> Iteratable<M> for M {
    open spec fn spec_origin(&self) -> &M {
        self
    }

    fn origin(&self) -> (origin: &M) {
        self
    }
}

} // verus!

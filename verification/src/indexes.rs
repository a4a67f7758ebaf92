//! Cursors over the coordinates of a matrix, from either end.

use crate::traits::Matrix;
use vstd::prelude::*;

verus! {

/// The coordinates of row `row` of a matrix of `width` columns, left to right.
pub open spec fn row_cells(width: usize, row: usize) -> Seq<(usize, usize)> {
    Seq::new(width as nat, |k: int| (row, k as usize))
}

/// The coordinates of column `column` of a matrix of `height` rows, top to bottom.
pub open spec fn column_cells(height: usize, column: usize) -> Seq<(usize, usize)> {
    Seq::new(height as nat, |k: int| (k as usize, column))
}

/// The indices `0..count`.
pub open spec fn indices(count: usize) -> Seq<usize> {
    Seq::new(count as nat, |k: int| k as usize)
}

/// A cursor over the coordinates of one row.
#[derive(Clone)]
pub struct Row {
    height: usize,
    width: usize,
    row: usize,
    left: usize,
    right: usize,
}

impl Row {
    pub closed spec fn wf(&self) -> bool {
        self.left + self.right <= self.width
    }

    /// What is still to come, in the order in which `next` hands it out.
    pub closed spec fn remaining(&self) -> Seq<(usize, usize)> {
        row_cells(self.width, self.row).subrange(self.left as int, self.width - self.right)
    }

    pub fn new(height: usize, width: usize, row: usize) -> (made: Row)
        ensures
            made.wf(),
            made.remaining() == row_cells(width, row),
    {
        let made = Row { height, width, row, left: 0, right: 0 };
        proof {
            assert(made.remaining() =~= row_cells(width, row));
        }
        made
    }

    /// Hands out the first of what remains.
    pub fn next(&mut self) -> (cell: Option<(usize, usize)>)
        requires
            old(self).wf(),
        ensures
            final(self).wf(),
            old(self).remaining().len() == 0 ==> cell is None && *final(self) == *old(self),
            old(self).remaining().len() > 0 ==> cell == Some(old(self).remaining().first())
                && final(self).remaining() == old(self).remaining().drop_first(),
    {
        if self.left < self.width - self.right {
            let cell = (self.row, self.left);
            self.left += 1;
            proof {
                assert(self.remaining() =~= old(self).remaining().drop_first());
            }
            Some(cell)
        } else {
            None
        }
    }

    /// How many are still to come, as a lower and an upper bound.
    pub fn size_hint(&self) -> (hint: (usize, Option<usize>))
        requires
            self.wf(),
        ensures
            hint.0 == self.remaining().len(),
            hint.1 == Some(hint.0),
    {
        let rest = self.width - self.left - self.right;
        (rest, Some(rest))
    }

    /// Hands out the last of what remains.
    pub fn next_back(&mut self) -> (cell: Option<(usize, usize)>)
        requires
            old(self).wf(),
        ensures
            final(self).wf(),
            old(self).remaining().len() == 0 ==> cell is None && *final(self) == *old(self),
            old(self).remaining().len() > 0 ==> cell == Some(old(self).remaining().last())
                && final(self).remaining() == old(self).remaining().drop_last(),
    {
        if self.left < self.width - self.right {
            let cell = (self.row, self.width - self.right - 1);
            self.right += 1;
            proof {
                assert(self.remaining() =~= old(self).remaining().drop_last());
            }
            Some(cell)
        } else {
            None
        }
    }
}

/// A cursor over the rows of a matrix, each handed out as a cursor over its coordinates.
#[derive(Clone)]
pub struct Rows {
    height: usize,
    width: usize,
    left: usize,
    right: usize,
}

impl Rows {
    pub closed spec fn wf(&self) -> bool {
        self.left + self.right <= self.height
    }

    /// The width of the matrix, which every row cursor handed out has.
    pub closed spec fn width(&self) -> usize {
        self.width
    }

    /// The rows still to come.
    pub closed spec fn remaining(&self) -> Seq<usize> {
        indices(self.height).subrange(self.left as int, self.height - self.right)
    }

    pub fn new(height: usize, width: usize) -> (made: Rows)
        ensures
            made.wf(),
            made.width() == width,
            made.remaining() == indices(height),
    {
        let made = Rows { height, width, left: 0, right: 0 };
        proof {
            assert(made.remaining() =~= indices(height));
        }
        made
    }

    /// Hands out a cursor over the first of the rows that remain.
    pub fn next(&mut self) -> (row: Option<Row>)
        requires
            old(self).wf(),
        ensures
            final(self).wf(),
            final(self).width() == old(self).width(),
            old(self).remaining().len() == 0 ==> row is None && *final(self) == *old(self),
            old(self).remaining().len() > 0 ==> row is Some && row.unwrap().wf()
                && row.unwrap().remaining() == row_cells(
                old(self).width(),
                old(self).remaining().first(),
            ) && final(self).remaining() == old(self).remaining().drop_first(),
    {
        if self.left < self.height - self.right {
            let row = Row::new(self.height, self.width, self.left);
            self.left += 1;
            proof {
                assert(self.remaining() =~= old(self).remaining().drop_first());
            }
            Some(row)
        } else {
            None
        }
    }

    /// How many rows are still to come, as a lower and an upper bound.
    pub fn size_hint(&self) -> (hint: (usize, Option<usize>))
        requires
            self.wf(),
        ensures
            hint.0 == self.remaining().len(),
            hint.1 == Some(hint.0),
    {
        let rest = self.height - self.left - self.right;
        (rest, Some(rest))
    }

    /// Hands out a cursor over the last of the rows that remain.
    pub fn next_back(&mut self) -> (row: Option<Row>)
        requires
            old(self).wf(),
        ensures
            final(self).wf(),
            final(self).width() == old(self).width(),
            old(self).remaining().len() == 0 ==> row is None && *final(self) == *old(self),
            old(self).remaining().len() > 0 ==> row is Some && row.unwrap().wf()
                && row.unwrap().remaining() == row_cells(
                old(self).width(),
                old(self).remaining().last(),
            ) && final(self).remaining() == old(self).remaining().drop_last(),
    {
        if self.left < self.height - self.right {
            let row = Row::new(self.height, self.width, self.height - self.right - 1);
            self.right += 1;
            proof {
                assert(self.remaining() =~= old(self).remaining().drop_last());
            }
            Some(row)
        } else {
            None
        }
    }
}

/// A cursor over the coordinates of one column.
#[derive(Clone)]
pub struct Column {
    height: usize,
    width: usize,
    column: usize,
    left: usize,
    right: usize,
}

impl Column {
    pub closed spec fn wf(&self) -> bool {
        self.left + self.right <= self.height
    }

    /// What is still to come, in the order in which `next` hands it out.
    pub closed spec fn remaining(&self) -> Seq<(usize, usize)> {
        column_cells(self.height, self.column).subrange(
            self.left as int,
            self.height - self.right,
        )
    }

    pub fn new(height: usize, width: usize, column: usize) -> (made: Column)
        ensures
            made.wf(),
            made.remaining() == column_cells(height, column),
    {
        let made = Column { height, width, column, left: 0, right: 0 };
        proof {
            assert(made.remaining() =~= column_cells(height, column));
        }
        made
    }

    /// Hands out the first of what remains.
    pub fn next(&mut self) -> (cell: Option<(usize, usize)>)
        requires
            old(self).wf(),
        ensures
            final(self).wf(),
            old(self).remaining().len() == 0 ==> cell is None && *final(self) == *old(self),
            old(self).remaining().len() > 0 ==> cell == Some(old(self).remaining().first())
                && final(self).remaining() == old(self).remaining().drop_first(),
    {
        if self.left < self.height - self.right {
            let cell = (self.left, self.column);
            self.left += 1;
            proof {
                assert(self.remaining() =~= old(self).remaining().drop_first());
            }
            Some(cell)
        } else {
            None
        }
    }

    /// How many are still to come, as a lower and an upper bound.
    pub fn size_hint(&self) -> (hint: (usize, Option<usize>))
        requires
            self.wf(),
        ensures
            hint.0 == self.remaining().len(),
            hint.1 == Some(hint.0),
    {
        let rest = self.height - self.left - self.right;
        (rest, Some(rest))
    }

    /// Hands out the last of what remains.
    pub fn next_back(&mut self) -> (cell: Option<(usize, usize)>)
        requires
            old(self).wf(),
        ensures
            final(self).wf(),
            old(self).remaining().len() == 0 ==> cell is None && *final(self) == *old(self),
            old(self).remaining().len() > 0 ==> cell == Some(old(self).remaining().last())
                && final(self).remaining() == old(self).remaining().drop_last(),
    {
        if self.left < self.height - self.right {
            let cell = (self.height - self.right - 1, self.column);
            self.right += 1;
            proof {
                assert(self.remaining() =~= old(self).remaining().drop_last());
            }
            Some(cell)
        } else {
            None
        }
    }
}

/// A cursor over the columns of a matrix, each handed out as a cursor over its
/// coordinates.
#[derive(Clone)]
pub struct Columns {
    height: usize,
    width: usize,
    left: usize,
    right: usize,
}

impl Columns {
    pub closed spec fn wf(&self) -> bool {
        self.left + self.right <= self.width
    }

    /// The height of the matrix, which every column cursor handed out has.
    pub closed spec fn height(&self) -> usize {
        self.height
    }

    /// The columns still to come.
    pub closed spec fn remaining(&self) -> Seq<usize> {
        indices(self.width).subrange(self.left as int, self.width - self.right)
    }

    pub fn new(height: usize, width: usize) -> (made: Columns)
        ensures
            made.wf(),
            made.height() == height,
            made.remaining() == indices(width),
    {
        let made = Columns { height, width, left: 0, right: 0 };
        proof {
            assert(made.remaining() =~= indices(width));
        }
        made
    }

    /// Hands out a cursor over the first of the columns that remain.
    pub fn next(&mut self) -> (column: Option<Column>)
        requires
            old(self).wf(),
        ensures
            final(self).wf(),
            final(self).height() == old(self).height(),
            old(self).remaining().len() == 0 ==> column is None && *final(self) == *old(self),
            old(self).remaining().len() > 0 ==> column is Some && column.unwrap().wf()
                && column.unwrap().remaining() == column_cells(
                old(self).height(),
                old(self).remaining().first(),
            ) && final(self).remaining() == old(self).remaining().drop_first(),
    {
        if self.left < self.width - self.right {
            let column = Column::new(self.height, self.width, self.left);
            self.left += 1;
            proof {
                assert(self.remaining() =~= old(self).remaining().drop_first());
            }
            Some(column)
        } else {
            None
        }
    }

    /// How many columns are still to come, as a lower and an upper bound.
    pub fn size_hint(&self) -> (hint: (usize, Option<usize>))
        requires
            self.wf(),
        ensures
            hint.0 == self.remaining().len(),
            hint.1 == Some(hint.0),
    {
        let rest = self.width - self.left - self.right;
        (rest, Some(rest))
    }

    /// Hands out a cursor over the last of the columns that remain.
    pub fn next_back(&mut self) -> (column: Option<Column>)
        requires
            old(self).wf(),
        ensures
            final(self).wf(),
            final(self).height() == old(self).height(),
            old(self).remaining().len() == 0 ==> column is None && *final(self) == *old(self),
            old(self).remaining().len() > 0 ==> column is Some && column.unwrap().wf()
                && column.unwrap().remaining() == column_cells(
                old(self).height(),
                old(self).remaining().last(),
            ) && final(self).remaining() == old(self).remaining().drop_last(),
    {
        if self.left < self.width - self.right {
            let column = Column::new(self.height, self.width, self.width - self.right - 1);
            self.right += 1;
            proof {
                assert(self.remaining() =~= old(self).remaining().drop_last());
            }
            Some(column)
        } else {
            None
        }
    }
}

/// Anything with a height and a width can hand out cursors over its coordinates.
pub trait Indexable {
    /// Whether the sizes can be asked for.
    spec fn measured(&self) -> bool;

    spec fn spec_iheight(&self) -> usize;

    spec fn spec_iwidth(&self) -> usize;

    fn iheight(&self) -> (height: usize)
        requires
            self.measured(),
        ensures
            height == self.spec_iheight(),
    ;

    fn iwidth(&self) -> (width: usize)
        requires
            self.measured(),
        ensures
            width == self.spec_iwidth(),
    ;

    /// A cursor over the coordinates of row `row`.
    fn irow(&self, row: usize) -> (cursor: Row)
        requires
            self.measured(),
        ensures
            cursor.wf(),
            cursor.remaining() == row_cells(self.spec_iwidth(), row),
    {
        Row::new(self.iheight(), self.iwidth(), row)
    }

    /// A cursor over the coordinates of column `column`.
    fn icolumn(&self, column: usize) -> (cursor: Column)
        requires
            self.measured(),
        ensures
            cursor.wf(),
            cursor.remaining() == column_cells(self.spec_iheight(), column),
    {
        Column::new(self.iheight(), self.iwidth(), column)
    }

    /// A cursor over the rows.
    fn irows(&self) -> (cursor: Rows)
        requires
            self.measured(),
        ensures
            cursor.wf(),
            cursor.width() == self.spec_iwidth(),
            cursor.remaining() == indices(self.spec_iheight()),
    {
        Rows::new(self.iheight(), self.iwidth())
    }

    /// A cursor over the columns.
    fn icolumns(&self) -> (cursor: Columns)
        requires
            self.measured(),
        ensures
            cursor.wf(),
            cursor.height() == self.spec_iheight(),
            cursor.remaining() == indices(self.spec_iwidth()),
    {
        Columns::new(self.iheight(), self.iwidth())
    }
}

impl<M: Matrix> Indexable for M {
    open spec fn measured(&self) -> bool {
        self.wf()
    }

    open spec fn spec_iheight(&self) -> usize {
        self.grid().height() as usize
    }

    open spec fn spec_iwidth(&self) -> usize {
        self.grid().width as usize
    }

    fn iheight(&self) -> (height: usize) {
        proof {
            self.lemma_grid_wf();
        }
        let h = self.height();
        proof {
            assert(h == self.grid().height());
            assert(self.grid().height() <= usize::MAX);
            assert(self.spec_iheight() == self.grid().height() as usize);
            assert(h == self.spec_iheight());
        }
        h
    }

    fn iwidth(&self) -> (width: usize) {
        proof {
            self.lemma_grid_wf();
        }
        self.width()
    }
}

} // verus!

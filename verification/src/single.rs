//! Gaussian elimination with a pivot search in every step, run as a session that
//! keeps a trace of what it did, on a plain row-major matrix.

use crate::fold::duplicate;
use crate::gauss::{leading_row, lemma_leading_row_bounds};
use crate::grid::{lemma_flat_bound, lemma_flat_index, lemma_flat_set, Grid};
use crate::scalar::Scalar;
use vstd::prelude::*;

verus! {

/// A matrix of `rows` by `cols` cells in one row-major buffer.
#[derive(Debug, Clone)]
pub struct Matrix<T> {
    rows: usize,
    cols: usize,
    data: Vec<T>,
}

/// `<[T]>::swap` exchanges the elements at two positions and leaves the others.
/// It panics on a position past the end, which the precondition excludes.
#[verifier::external_body]
fn swap_cells<T>(data: &mut Vec<T>, x: usize, y: usize)
    requires
        x < old(data)@.len(),
        y < old(data)@.len(),
    ensures
        final(data)@ == old(data)@.update(x as int, old(data)@[y as int]).update(
            y as int,
            old(data)@[x as int],
        ),
{
    data.swap(x, y)
}

impl<T> View for Matrix<T> {
    type V = Grid<T>;

    closed spec fn view(&self) -> Grid<T> {
        Grid::from_flat(self.rows as nat, self.cols as nat, self.data@)
    }
}

impl<T> Matrix<T> {
    /// The buffer holds exactly the cells of the matrix.
    pub closed spec fn wf(&self) -> bool {
        self.data@.len() == self.rows * self.cols
    }

    pub proof fn lemma_view(&self)
        requires
            self.wf(),
        ensures
            self@.wf(),
            self@.height() <= usize::MAX,
            self@.width <= usize::MAX,
    {
    }

    /// Builds the matrix whose cell `(row, col)` is `f(row, col)`, calling `f` row
    /// by row.
    pub fn new<F: Fn(usize, usize) -> T>(rows: usize, cols: usize, f: F) -> (made: Matrix<T>)
        requires
            rows * cols <= usize::MAX,
            forall|i: usize, j: usize| i < rows && j < cols ==> call_requires(f, (i, j)),
        ensures
            made.wf(),
            made@.height() == rows,
            made@.width == cols,
            forall|i: usize, j: usize|
                i < rows && j < cols ==> call_ensures(
                    f,
                    (i, j),
                    #[trigger] made@.cell(i as int, j as int),
                ),
    {
        let mut data: Vec<T> = Vec::new();
        let mut row: usize = 0;
        while row < rows
            invariant
                row <= rows,
                rows * cols <= usize::MAX,
                data@.len() == row * cols,
                forall|r: usize, c: usize| r < rows && c < cols ==> call_requires(f, (r, c)),
                forall|r: usize, c: usize|
                    r < row && c < cols ==> call_ensures(f, (r, c), #[trigger] data@[r * cols + c]),
            decreases rows - row,
        {
            let mut col: usize = 0;
            while col < cols
                invariant
                    row < rows,
                    col <= cols,
                    rows * cols <= usize::MAX,
                    data@.len() == row * cols + col,
                    forall|r: usize, c: usize| r < rows && c < cols ==> call_requires(f, (r, c)),
                    forall|r: usize, c: usize|
                        r < row && c < cols ==> call_ensures(
                            f,
                            (r, c),
                            #[trigger] data@[r * cols + c],
                        ),
                    forall|c: usize|
                        c < col ==> call_ensures(f, (row, c), #[trigger] data@[row * cols + c]),
                decreases cols - col,
            {
                let ghost before = data@;
                let value = f(row, col);
                data.push(value);
                proof {
                    assert forall|r: usize, c: usize| r < row && c < cols implies call_ensures(
                        f,
                        (r, c),
                        #[trigger] data@[r * cols + c],
                    ) by {
                        lemma_flat_bound(row as int, cols as int, r as int, c as int);
                        assert(data@[r * cols + c] == before[r * cols + c]);
                    }
                    assert forall|c: usize| c < col + 1 implies call_ensures(
                        f,
                        (row, c),
                        #[trigger] data@[row * cols + c],
                    ) by {
                        if c < col {
                            assert(data@[row * cols + c] == before[row * cols + c]);
                        }
                    }
                }
                col += 1;
            }
            proof {
                assert((row + 1) * cols == row * cols + cols) by (nonlinear_arith);
                assert forall|r: usize, c: usize| r < row + 1 && c < cols implies call_ensures(
                    f,
                    (r, c),
                    #[trigger] data@[r * cols + c],
                ) by {
                    if r == row {
                        assert(call_ensures(f, (row, c), data@[row * cols + c]));
                    }
                }
            }
            row += 1;
        }
        let made = Matrix { rows, cols, data };
        proof {
            assert forall|r: usize, c: usize| r < rows && c < cols implies call_ensures(
                f,
                (r, c),
                #[trigger] made@.cell(r as int, c as int),
            ) by {
                assert(made@.cell(r as int, c as int) == made.data@[r * cols + c]);
            }
        }
        made
    }

    /// Takes the leading cells of `data` as a matrix of one column more than it has
    /// rows: of as many rows as such a matrix can have without running out of cells.
    pub fn from_iter(data: Vec<T>) -> (made: Matrix<T>)
        ensures
            made.wf(),
            made@.width == made@.height() + 1,
            made@.height() * made@.width <= data@.len(),
            data@.len() < (made@.height() + 1) * (made@.width + 1),
            forall|i: int, j: int|
                made@.holds(i, j) ==> #[trigger] made@.cell(i, j) == data@[i * made@.width + j],
    {
        let mut data = data;
        let length = data.len();
        let mut n: usize = 1;
        loop
            invariant
                1 <= n,
                (n - 1) * n <= length,
                length == data@.len(),
            ensures
                1 <= n,
                (n - 1) * n <= length,
                length < n * (n + 1),
            decreases length - (n - 1) * n,
        {
            proof {
                assert((n - 1) * n <= length ==> n - 1 <= length) by (nonlinear_arith)
                    requires
                        1 <= n,
                ;
            }
            let fits = match n.checked_add(1) {
                Some(next) => match n.checked_mul(next) {
                    Some(cells) => cells <= length,
                    None => false,
                },
                None => {
                    proof {
                        assert(n * (n + 1) > usize::MAX) by (nonlinear_arith)
                            requires
                                n + 1 > usize::MAX,
                                n >= 1,
                        ;
                    }
                    false
                },
            };
            if !fits {
                break ;
            }
            proof {
                assert(n * (n + 1) > (n - 1) * n) by (nonlinear_arith)
                    requires
                        1 <= n,
                ;
            }
            n += 1;
        }
        let ghost all = data@;
        data.truncate((n - 1) * n);
        let made = Matrix { rows: n - 1, cols: n, data };
        proof {
            assert forall|i: int, j: int| made@.holds(i, j) implies #[trigger] made@.cell(i, j)
                == all[i * made@.width + j] by {
                lemma_flat_bound(n - 1, n as int, i, j);
            }
        }
        made
    }

    fn index(&self, row: usize, col: usize) -> (index: usize)
        requires
            self.wf(),
            self@.holds(row as int, col as int),
        ensures
            index == row * self.cols + col,
            index < self.data@.len(),
    {
        proof {
            assert(self.data@.len() == self.data.len());
            lemma_flat_bound(self.rows as int, self.cols as int, row as int, col as int);
        }
        row * self.cols + col
    }

    /// Tells whether `(row, col)` names a cell of the matrix.
    pub fn safe(&self, row: usize, col: usize) -> (safe: bool)
        ensures
            safe == self@.holds(row as int, col as int),
    {
        row < self.rows && col < self.cols
    }

    /// The cell at `(row, col)`, which must exist.
    pub fn at(&self, row: usize, col: usize) -> (cell: &T)
        requires
            self.wf(),
            self@.holds(row as int, col as int),
        ensures
            *cell == self@.cell(row as int, col as int),
    {
        let index = self.index(row, col);
        &self.data[index]
    }

    /// Writing one position of the buffer replaces one cell.
    proof fn lemma_write(self, after: Matrix<T>, row: int, col: int, value: T)
        requires
            self.wf(),
            self@.holds(row, col),
            after.rows == self.rows,
            after.cols == self.cols,
            after.data@ == self.data@.update(row * self.cols + col, value),
        ensures
            after.wf(),
            after@ == self@.set(row, col, value),
    {
        lemma_flat_bound(self.rows as int, self.cols as int, row, col);
        let target = self@.set(row, col, value);
        assert forall|i: int, j: int|
            0 <= i < target.height() && 0 <= j < target.width implies after@.rows[i][j]
            == target.rows[i][j] by {
            lemma_flat_bound(self.rows as int, self.cols as int, i, j);
            if i * self.cols + j == row * self.cols + col {
                lemma_flat_index(self.cols as int, i, j, row, col);
            }
        }
        after@.lemma_equal(target);
    }

    /// The cell at `(row, col)`, which must exist, for writing.
    pub fn at_mut(&mut self, row: usize, col: usize) -> (cell: &mut T)
        requires
            old(self).wf(),
            old(self)@.holds(row as int, col as int),
        ensures
            *cell == old(self)@.cell(row as int, col as int),
            final(self).wf(),
            final(self)@ == old(self)@.set(row as int, col as int, *final(cell)),
    {
        let index = self.index(row, col);
        proof {
            let before = *self;
            assert forall|after: Matrix<T>, value: T|
                #![trigger after@, before.data@.update(index as int, value)]
                after.rows == before.rows && after.cols == before.cols && after.data@
                    == before.data@.update(index as int, value) implies after@ == before@.set(
                row as int,
                col as int,
                value,
            ) by {
                before.lemma_write(after, row as int, col as int, value);
            }
            assert forall|after: Matrix<T>, value: T|
                #![trigger after.wf(), before.data@.update(index as int, value)]
                after.rows == before.rows && after.cols == before.cols && after.data@
                    == before.data@.update(index as int, value) implies after.wf() by {
                before.lemma_write(after, row as int, col as int, value);
            }
        }
        &mut self.data[index]
    }

    pub fn height(&self) -> (height: usize)
        ensures
            height == self@.height(),
    {
        self.rows
    }

    pub fn width(&self) -> (width: usize)
        ensures
            width == self@.width,
    {
        self.cols
    }

    /// Exchanges two cells, which must exist.
    fn exchange(&mut self, row_a: usize, col_a: usize, row_b: usize, col_b: usize)
        requires
            old(self).wf(),
            old(self)@.holds(row_a as int, col_a as int),
            old(self)@.holds(row_b as int, col_b as int),
        ensures
            final(self).wf(),
            final(self)@ == old(self)@.set(
                row_a as int,
                col_a as int,
                old(self)@.cell(row_b as int, col_b as int),
            ).set(row_b as int, col_b as int, old(self)@.cell(row_a as int, col_a as int)),
    {
        let x = self.index(row_a, col_a);
        let y = self.index(row_b, col_b);
        let ghost before = self.data@;
        swap_cells(&mut self.data, x, y);
        proof {
            let height = self.rows as nat;
            let width = self.cols as nat;
            lemma_flat_set(height, width, before, row_a as int, col_a as int, before[y as int]);
            lemma_flat_set(
                height,
                width,
                before.update(x as int, before[y as int]),
                row_b as int,
                col_b as int,
                before[x as int],
            );
        }
    }

    /// Exchanges the cells of two rows, which must exist, column by column.
    pub fn swap_rows(&mut self, a: usize, b: usize)
        requires
            old(self).wf(),
            a < old(self)@.height(),
            b < old(self)@.height(),
        ensures
            final(self).wf(),
            final(self)@ == old(self)@.swap_rows(a as int, b as int),
    {
        let ghost start = self@;
        let cols = self.cols;
        let mut col: usize = 0;
        while col < cols
            invariant
                self.wf(),
                start.wf(),
                self@.wf(),
                self@.height() == start.height(),
                self@.width == start.width,
                cols == start.width,
                a < start.height(),
                b < start.height(),
                col <= cols,
                forall|r: int|
                    0 <= r < start.height() && r != a && r != b ==> #[trigger] self@.rows[r]
                        == start.rows[r],
                forall|c: int|
                    0 <= c < col ==> #[trigger] self@.rows[a as int][c] == start.rows[b as int][c],
                forall|c: int|
                    0 <= c < col ==> #[trigger] self@.rows[b as int][c] == start.rows[a as int][c],
                forall|c: int|
                    col <= c < cols ==> #[trigger] self@.rows[a as int][c]
                        == start.rows[a as int][c],
                forall|c: int|
                    col <= c < cols ==> #[trigger] self@.rows[b as int][c]
                        == start.rows[b as int][c],
            decreases cols - col,
        {
            let ghost before = self@;
            self.exchange(a, col, b, col);
            proof {
                assert(before.rows[a as int].len() == before.width);
                assert(before.rows[b as int].len() == before.width);
                if a != b {
                    assert(self@.rows[a as int] =~= before.rows[a as int].update(
                        col as int,
                        before.rows[b as int][col as int],
                    ));
                    assert(self@.rows[b as int] =~= before.rows[b as int].update(
                        col as int,
                        before.rows[a as int][col as int],
                    ));
                } else {
                    assert(self@.rows[a as int] =~= before.rows[a as int]);
                }
                assert forall|r: int|
                    0 <= r < start.height() && r != a && r != b implies #[trigger] self@.rows[r]
                    == start.rows[r] by {
                    assert(self@.rows[r] == before.rows[r]);
                }
            }
            col += 1;
        }
        proof {
            let target = start.swap_rows(a as int, b as int);
            assert forall|i: int, j: int|
                0 <= i < target.height() && 0 <= j < target.width implies self@.rows[i][j]
                == target.rows[i][j] by {
                if i != a && i != b {
                    assert(self@.rows[i] == start.rows[i]);
                } else {
                    assert(self@.rows[a as int][j] == start.rows[b as int][j]);
                }
            }
            assert(target.wf()) by {
                assert forall|r: int| 0 <= r < target.rows.len() implies (#[trigger] target.rows[r]).len()
                    == target.width by {
                    assert(start.rows[r].len() == start.width);
                    assert(start.rows[a as int].len() == start.width);
                    assert(start.rows[b as int].len() == start.width);
                }
            }
            self@.lemma_equal(target);
        }
    }

    /// Exchanges the cells of two columns, which must exist, row by row.
    pub fn swap_cols(&mut self, a: usize, b: usize)
        requires
            old(self).wf(),
            a < old(self)@.width,
            b < old(self)@.width,
        ensures
            final(self).wf(),
            final(self)@ == old(self)@.swap_columns(a as int, b as int),
    {
        let ghost start = self@;
        let rows = self.rows;
        let mut row: usize = 0;
        while row < rows
            invariant
                self.wf(),
                start.wf(),
                self@.wf(),
                self@.height() == start.height(),
                self@.width == start.width,
                rows == start.height(),
                a < start.width,
                b < start.width,
                row <= rows,
                forall|r: int|
                    0 <= r < row ==> #[trigger] self@.rows[r] == start.swap_columns(
                        a as int,
                        b as int,
                    ).rows[r],
                forall|r: int| row <= r < rows ==> #[trigger] self@.rows[r] == start.rows[r],
            decreases rows - row,
        {
            let ghost before = self@;
            self.exchange(row, a, row, b);
            proof {
                assert(before.rows[row as int].len() == before.width);
                assert(self@.rows[row as int] =~= start.swap_columns(
                    a as int,
                    b as int,
                ).rows[row as int]);
            }
            row += 1;
        }
        proof {
            assert(self@.rows =~= start.swap_columns(a as int, b as int).rows);
        }
    }
}

/// The column, among `from..upto`, that holds the largest entry of `row`; of several
/// such columns, the one of the lowest index.
pub open spec fn leading_column<T: Scalar>(g: Grid<T>, row: int, from: int, upto: int) -> int
    decreases upto - from,
{
    if upto <= from + 1 {
        from
    } else {
        let best = leading_column(g, row, from, upto - 1);
        if g.rows[row][upto - 1].spec_exceeds(g.rows[row][best]) {
            upto - 1
        } else {
            best
        }
    }
}

/// The square grid with ones on the diagonal and zeros elsewhere.
pub open spec fn unit_grid<T: Scalar>(n: nat) -> Grid<T> {
    Grid {
        width: n,
        rows: Seq::new(
            n,
            |i: int| Seq::new(n, |j: int| if i == j { T::spec_one() } else { T::spec_zero() }),
        ),
    }
}

impl<T: Scalar> Matrix<T> {
    /// The identity matrix of `n` rows and columns.
    pub fn e(n: usize) -> (made: Matrix<T>)
        requires
            n * n <= usize::MAX,
        ensures
            made.wf(),
            made@ == unit_grid::<T>(n as nat),
    {
        let unit = |i: usize, j: usize| -> (value: T)
            ensures
                value == if i == j { T::spec_one() } else { T::spec_zero() },
            { if i == j { T::one() } else { T::zero() } };
        let made = Matrix::new(n, n, unit);
        proof {
            let target = unit_grid::<T>(n as nat);
            assert forall|i: int, j: int|
                0 <= i < target.height() && 0 <= j < target.width implies made@.rows[i][j]
                == target.rows[i][j] by {
                assert(call_ensures(unit, (i as usize, j as usize), made@.cell(i, j)));
            }
            made@.lemma_equal(target);
        }
        made
    }

    /// A matrix with the same cells.
    pub fn copy(&self) -> (made: Matrix<T>)
        requires
            self.wf(),
        ensures
            made.wf(),
            made@ == self@,
    {
        let data = duplicate(&self.data);
        Matrix { rows: self.rows, cols: self.cols, data }
    }

    /// The column of the largest entry of `row` among the columns from `skip` on,
    /// from the first column if `skip` is `None`; of several such columns the first.
    /// A start behind the last column is returned as it is.
    pub fn max_in_row(&self, row: usize, skip: Option<usize>) -> (max: usize)
        requires
            self.wf(),
            row < self@.height(),
        ensures
            max == ({
                let start = if skip is Some { skip.unwrap() } else { 0 };
                if start < self@.width {
                    leading_column(self@, row as int, start as int, self@.width as int)
                } else {
                    start as int
                }
            }),
    {
        let start = match skip {
            Some(start) => start,
            None => 0,
        };
        if start >= self.cols {
            return start;
        }
        let mut max = start;
        let mut col = start + 1;
        while col < self.cols
            invariant
                self.wf(),
                row < self@.height(),
                start < col <= self.cols,
                self.cols == self@.width,
                start <= max < col,
                max == leading_column(self@, row as int, start as int, col as int),
            decreases self.cols - col,
        {
            if self.at(row, col).exceeds(*self.at(row, max)) {
                max = col;
            }
            col += 1;
        }
        max
    }

    /// The row of the largest entry of `col` among the rows from `skip` on, from the
    /// first row if `skip` is `None`; of several such rows the first. A start behind
    /// the last row is returned as it is.
    pub fn max_in_col(&self, col: usize, skip: Option<usize>) -> (max: usize)
        requires
            self.wf(),
            col < self@.width,
        ensures
            max == ({
                let start = if skip is Some { skip.unwrap() } else { 0 };
                if start < self@.height() {
                    leading_row(self@, col as int, start as int, self@.height() as int)
                } else {
                    start as int
                }
            }),
    {
        let start = match skip {
            Some(start) => start,
            None => 0,
        };
        if start >= self.rows {
            return start;
        }
        let mut max = start;
        let mut row = start + 1;
        while row < self.rows
            invariant
                self.wf(),
                col < self@.width,
                start < row <= self.rows,
                self.rows == self@.height(),
                start <= max < row,
                max == leading_row(self@, col as int, start as int, row as int),
            decreases self.rows - row,
        {
            if self.at(row, col).exceeds(*self.at(max, col)) {
                max = row;
            }
            row += 1;
        }
        max
    }
}

/// What a session records: an entry of its trace.
pub enum State<T> {
    /// The session was set up on this matrix.
    Created { matrix: Matrix<T> },
    /// Step `iter` chose the entry `value` at `(row, column)` as its pivot.
    Main { iter: usize, row: usize, column: usize, value: T },
    /// Step `iter` exchanged the rows `a` and `b` of a matrix of `n` rows.
    Swapped { iter: usize, a: usize, b: usize, n: usize },
    /// Step `iter` left the matrix like this.
    Modified { iter: usize, matrix: Matrix<T> },
    /// The session ended with this solution and this determinant.
    Solved { x: Vec<T>, det: T },
}

/// An entry of the trace, over grids and sequences.
pub enum Event<T> {
    Created { grid: Grid<T> },
    Main { iter: usize, row: usize, column: usize, value: T },
    Swapped { iter: usize, a: usize, b: usize, n: usize },
    Modified { iter: usize, grid: Grid<T> },
    Solved { x: Seq<T>, det: T },
}

impl<T> View for State<T> {
    type V = Event<T>;

    open spec fn view(&self) -> Event<T> {
        match *self {
            State::Created { matrix } => Event::Created { grid: matrix@ },
            State::Main { iter, row, column, value } => Event::Main { iter, row, column, value },
            State::Swapped { iter, a, b, n } => Event::Swapped { iter, a, b, n },
            State::Modified { iter, matrix } => Event::Modified { iter, grid: matrix@ },
            State::Solved { x, det } => Event::Solved { x: x@, det },
        }
    }
}

/// The entries of a trace as events.
pub open spec fn events_of<T>(trace: Seq<State<T>>) -> Seq<Event<T>> {
    Seq::new(trace.len(), |k: int| trace[k]@)
}

/// Row `i` with its entries from column `i` on divided by `pivot`: each is
/// multiplied by one over `pivot`.
pub open spec fn scaled_row<T: Scalar>(g: Grid<T>, i: int, pivot: T) -> Seq<T> {
    Seq::new(
        g.width,
        |c: int|
            if c < i {
                g.rows[i][c]
            } else {
                g.rows[i][c].spec_times(T::spec_one().spec_over(pivot))
            },
    )
}

/// The grid after the elimination of step `i`: row `i` is scaled by the pivot, and
/// from every row below it the scaled row, times the entry of that row in column
/// `i`, is taken in the columns from `i` on.
pub open spec fn swept<T: Scalar>(g: Grid<T>, i: int, pivot: T) -> Grid<T> {
    Grid {
        width: g.width,
        rows: Seq::new(
            g.rows.len(),
            |r: int|
                if r < i {
                    g.rows[r]
                } else if r == i {
                    scaled_row(g, i, pivot)
                } else {
                    Seq::new(
                        g.width,
                        |c: int|
                            if c < i {
                                g.rows[r][c]
                            } else {
                                g.rows[r][c].spec_minus(
                                    scaled_row(g, i, pivot)[c].spec_times(g.rows[r][i]),
                                )
                            },
                    )
                },
        ),
    }
}

/// The row that step `i` chooses: the leading row of column `i` from row `i` down.
pub open spec fn chosen_row<T: Scalar>(g: Grid<T>, i: int) -> int {
    leading_row(g, i, i, g.height() as int)
}

/// The grid after step `i`: the chosen row is brought to row `i`, then the
/// elimination is made with its entry in column `i` as the pivot.
pub open spec fn step_grid<T: Scalar>(g: Grid<T>, i: int) -> Grid<T> {
    let lead = chosen_row(g, i);
    swept(g.swap_rows(lead, i), i, g.rows[lead][i])
}

/// What step `i` records: its pivot, the exchange if it made one, and the grid it
/// left.
pub open spec fn step_events<T: Scalar>(g: Grid<T>, i: int) -> Seq<Event<T>> {
    let lead = chosen_row(g, i);
    let main = Event::Main {
        iter: i as usize,
        row: lead as usize,
        column: i as usize,
        value: g.rows[lead][i],
    };
    let modified = Event::Modified { iter: i as usize, grid: step_grid(g, i) };
    if lead != i {
        seq![
            main,
            Event::Swapped { iter: i as usize, a: lead as usize, b: i as usize, n: g.height() as usize },
            modified,
        ]
    } else {
        seq![main, modified]
    }
}

/// The grid after the first `steps` steps.
pub open spec fn forward_grid<T: Scalar>(g: Grid<T>, steps: nat) -> Grid<T>
    decreases steps,
{
    if steps == 0 {
        g
    } else {
        step_grid(forward_grid(g, (steps - 1) as nat), steps - 1)
    }
}

/// What the first `steps` steps record.
pub open spec fn forward_events<T: Scalar>(g: Grid<T>, steps: nat) -> Seq<Event<T>>
    decreases steps,
{
    if steps == 0 {
        Seq::empty()
    } else {
        forward_events(g, (steps - 1) as nat) + step_events(
            forward_grid(g, (steps - 1) as nat),
            steps - 1,
        )
    }
}

/// What is left of the last entry of row `i` after the entries in the columns
/// behind `i` and below `upto` were taken from it, in order.
pub open spec fn back_entry<T: Scalar>(g: Grid<T>, i: int, upto: int) -> T
    decreases upto - i,
{
    if upto <= i + 1 {
        g.rows[i][g.width - 1]
    } else {
        back_entry(g, i, upto - 1).spec_minus(g.rows[i][upto - 1])
    }
}

/// The solution read off the grid that the forward pass left.
pub open spec fn solution<T: Scalar>(g: Grid<T>) -> Seq<T> {
    Seq::new(g.height(), |i: int| back_entry(g, i, g.height() as int))
}

/// The pivots among the first `count` events, multiplied up from one in order.
pub open spec fn pivot_product<T: Scalar>(events: Seq<Event<T>>, count: int) -> T
    decreases count,
{
    if count <= 0 {
        T::spec_one()
    } else {
        match events[count - 1] {
            Event::Main { value, .. } => pivot_product(events, count - 1).spec_times(value),
            _ => pivot_product(events, count - 1),
        }
    }
}

/// The number of exchanges among the first `count` events.
pub open spec fn swap_count<T>(events: Seq<Event<T>>, count: int) -> nat
    decreases count,
{
    if count <= 0 {
        0
    } else {
        swap_count(events, count - 1) + if events[count - 1] is Swapped {
            1nat
        } else {
            0nat
        }
    }
}

/// `value` with its sign turned `times` times.
pub open spec fn flipped<T: Scalar>(value: T, times: nat) -> T
    decreases times,
{
    if times == 0 {
        value
    } else {
        flipped(value, (times - 1) as nat).spec_negated()
    }
}

/// The determinant that a trace stands for: the product of its pivots, with the sign
/// turned once for every exchange.
pub open spec fn determinant<T: Scalar>(events: Seq<Event<T>>) -> T {
    flipped(pivot_product(events, events.len() as int), swap_count(events, events.len() as int))
}

pub proof fn lemma_step_shape<T: Scalar>(g: Grid<T>, i: int)
    requires
        g.wf(),
        0 <= i < g.height(),
    ensures
        step_grid(g, i).wf(),
        step_grid(g, i).height() == g.height(),
        step_grid(g, i).width == g.width,
        i <= chosen_row(g, i) < g.height(),
{
    lemma_leading_row_bounds(g, i, i, g.height() as int);
}

pub proof fn lemma_forward_shape<T: Scalar>(g: Grid<T>, steps: nat)
    requires
        g.wf(),
        steps <= g.height(),
    ensures
        forward_grid(g, steps).wf(),
        forward_grid(g, steps).height() == g.height(),
        forward_grid(g, steps).width == g.width,
    decreases steps,
{
    if steps > 0 {
        lemma_forward_shape(g, (steps - 1) as nat);
        lemma_step_shape(forward_grid(g, (steps - 1) as nat), steps - 1);
    }
}

/// The pivots of the first `steps` steps, multiplied up from one in order.
pub open spec fn pivots<T: Scalar>(g: Grid<T>, steps: nat) -> T
    decreases steps,
{
    if steps == 0 {
        T::spec_one()
    } else {
        let before = forward_grid(g, (steps - 1) as nat);
        pivots(g, (steps - 1) as nat).spec_times(
            before.rows[chosen_row(before, steps - 1)][steps - 1],
        )
    }
}

/// How many of the first `steps` steps exchange two rows.
pub open spec fn exchanges<T: Scalar>(g: Grid<T>, steps: nat) -> nat
    decreases steps,
{
    if steps == 0 {
        0
    } else {
        let before = forward_grid(g, (steps - 1) as nat);
        exchanges(g, (steps - 1) as nat) + if chosen_row(before, steps - 1) != steps - 1 {
            1nat
        } else {
            0nat
        }
    }
}

/// Traces that agree in their first `count` events have the same pivots and as many
/// exchanges among them.
pub proof fn lemma_trace_prefix<T: Scalar>(a: Seq<Event<T>>, b: Seq<Event<T>>, count: int)
    requires
        0 <= count <= a.len(),
        count <= b.len(),
        forall|k: int| 0 <= k < count ==> a[k] == b[k],
    ensures
        pivot_product(a, count) == pivot_product(b, count),
        swap_count(a, count) == swap_count(b, count),
    decreases count,
{
    if count > 0 {
        lemma_trace_prefix(a, b, count - 1);
    }
}

/// The determinant that a session records is the product of the pivots that its
/// steps used, with the sign turned once for every step that exchanged two rows.
pub proof fn lemma_recorded_determinant<T: Scalar>(g: Grid<T>, steps: nat)
    ensures
        pivot_product(
            seq![Event::Created { grid: g }] + forward_events(g, steps),
            (1 + forward_events(g, steps).len()) as int,
        ) == pivots(g, steps),
        swap_count(
            seq![Event::Created { grid: g }] + forward_events(g, steps),
            (1 + forward_events(g, steps).len()) as int,
        ) == exchanges(g, steps),
        determinant(seq![Event::Created { grid: g }] + forward_events(g, steps)) == flipped(
            pivots(g, steps),
            exchanges(g, steps),
        ),
    decreases steps,
{
    let created = seq![Event::Created { grid: g }];
    let all = created + forward_events(g, steps);
    if steps == 0 {
        assert(all =~= created);
        assert(pivot_product(all, 0) == T::spec_one());
        assert(swap_count(all, 0) == 0);
    } else {
        lemma_recorded_determinant(g, (steps - 1) as nat);
        let i = steps - 1;
        let before = forward_grid(g, i as nat);
        let earlier = created + forward_events(g, i as nat);
        let made = step_events(before, i);
        let base = earlier.len() as int;
        assert(all =~= earlier + made);
        lemma_trace_prefix(all, earlier, base);
        assert(all[base] == made[0]);
        assert(pivot_product(all, base + 1) == pivot_product(all, base).spec_times(
            before.rows[chosen_row(before, i)][i],
        ));
        assert(swap_count(all, base + 1) == swap_count(all, base));
        if chosen_row(before, i) != i {
            assert(all[base + 1] == made[1]);
            assert(all[base + 2] == made[2]);
            assert(pivot_product(all, base + 2) == pivot_product(all, base + 1));
            assert(pivot_product(all, base + 3) == pivot_product(all, base + 2));
            assert(swap_count(all, base + 2) == swap_count(all, base + 1) + 1);
            assert(swap_count(all, base + 3) == swap_count(all, base + 2));
        } else {
            assert(all[base + 1] == made[1]);
            assert(pivot_product(all, base + 2) == pivot_product(all, base + 1));
            assert(swap_count(all, base + 2) == swap_count(all, base + 1));
        }
    }
}

/// The number of pivots among the first `count` events.
pub open spec fn main_count<T>(events: Seq<Event<T>>, count: int) -> nat
    decreases count,
{
    if count <= 0 {
        0
    } else {
        main_count(events, count - 1) + if events[count - 1] is Main {
            1nat
        } else {
            0nat
        }
    }
}

/// Traces that agree in their first `count` events hold as many pivots among them.
pub proof fn lemma_main_count_prefix<T>(a: Seq<Event<T>>, b: Seq<Event<T>>, count: int)
    requires
        0 <= count <= a.len(),
        count <= b.len(),
        forall|k: int| 0 <= k < count ==> a[k] == b[k],
    ensures
        main_count(a, count) == main_count(b, count),
    decreases count,
{
    if count > 0 {
        lemma_main_count_prefix(a, b, count - 1);
    }
}

/// What `steps` steps record holds exactly one pivot and at most one exchange for
/// each step, and beside them only the grids that the steps left.
pub proof fn lemma_forward_events_shape<T: Scalar>(g: Grid<T>, steps: nat)
    ensures
        main_count(forward_events(g, steps), forward_events(g, steps).len() as int) == steps,
        exchanges(g, steps) <= steps,
        forall|k: int|
            0 <= k < forward_events(g, steps).len() ==> (#[trigger] forward_events(g, steps)[k]
                is Main) || forward_events(g, steps)[k] is Swapped || forward_events(g, steps)[k]
                is Modified,
    decreases steps,
{
    if steps > 0 {
        lemma_forward_events_shape(g, (steps - 1) as nat);
        let i = steps - 1;
        let before = forward_grid(g, i as nat);
        let earlier = forward_events(g, i as nat);
        let made = step_events(before, i);
        let all = forward_events(g, steps);
        let base = earlier.len() as int;
        assert(all =~= earlier + made);
        lemma_main_count_prefix(all, earlier, base);
        assert(all[base] == made[0]);
        assert(main_count(all, base + 1) == main_count(all, base) + 1);
        assert(all[base + 1] == made[1]);
        assert(main_count(all, base + 2) == main_count(all, base + 1));
        if chosen_row(before, i) != i {
            assert(all[base + 2] == made[2]);
            assert(main_count(all, base + 3) == main_count(all, base + 2));
        }
        assert forall|k: int| 0 <= k < all.len() implies (#[trigger] all[k] is Main) || all[k]
            is Swapped || all[k] is Modified by {
            if k < base {
                assert(all[k] == earlier[k]);
            } else {
                assert(all[k] == made[k - base]);
            }
        }
    }
}

/// A session of elimination on a matrix of one column more than it has rows: the
/// coefficients with the right-hand side behind them.
pub struct Gauss<T> {
    a: Matrix<T>,
    x: Option<Vec<T>>,
    det: Option<T>,
    trace: Vec<State<T>>,
}

impl<T: Scalar> Gauss<T> {
    pub closed spec fn wf(&self) -> bool {
        &&& self.a.wf()
        &&& self.a@.height() + 1 == self.a@.width
    }

    /// The matrix as the session has left it.
    pub closed spec fn matrix(&self) -> Grid<T> {
        self.a@
    }

    /// The trace so far.
    pub closed spec fn events(&self) -> Seq<Event<T>> {
        events_of(self.trace@)
    }

    /// The solution, once the session has solved.
    pub closed spec fn answer(&self) -> Option<Seq<T>> {
        match self.x {
            Some(x) => Some(x@),
            None => None,
        }
    }

    /// The determinant, once the session has solved.
    pub closed spec fn sign(&self) -> Option<T> {
        self.det
    }

    /// Sets a session up on `value`, or hands `value` back if it does not have
    /// exactly one column more than it has rows.
    pub fn try_from(value: Matrix<T>) -> (made: Result<Gauss<T>, Matrix<T>>)
        requires
            value.wf(),
        ensures
            made is Ok <==> value@.height() + 1 == value@.width,
            made matches Ok(session) ==> {
                &&& session.wf()
                &&& session.matrix() == value@
                &&& session.events() == seq![Event::Created { grid: value@ }]
                &&& session.answer() is None
                &&& session.sign() is None
            },
            made matches Err(back) ==> back == value,
    {
        let fits = match value.height().checked_add(1) {
            Some(wanted) => wanted == value.width(),
            None => false,
        };
        if !fits {
            Err(value)
        } else {
            let a = value.copy();
            let mut trace: Vec<State<T>> = Vec::new();
            let ghost grid = value@;
            trace.push(State::Created { matrix: value });
            let made = Gauss { a, x: None, det: None, trace };
            proof {
                assert(made.events() =~= seq![Event::Created { grid }]);
            }
            Ok(made)
        }
    }

    fn at(&self, row: usize, col: usize) -> (cell: &T)
        requires
            self.wf(),
            self.matrix().holds(row as int, col as int),
        ensures
            *cell == self.matrix().cell(row as int, col as int),
    {
        self.a.at(row, col)
    }

    fn at_mut(&mut self, row: usize, col: usize) -> (cell: &mut T)
        requires
            old(self).wf(),
            old(self).matrix().holds(row as int, col as int),
        ensures
            *cell == old(self).matrix().cell(row as int, col as int),
            final(self).wf(),
            final(self).matrix() == old(self).matrix().set(row as int, col as int, *final(cell)),
            final(self).events() == old(self).events(),
            final(self).answer() == old(self).answer(),
            final(self).sign() == old(self).sign(),
    {
        self.a.at_mut(row, col)
    }

    fn log(&mut self, state: State<T>)
        ensures
            final(self).wf() == old(self).wf(),
            final(self).matrix() == old(self).matrix(),
            final(self).events() == old(self).events().push(state@),
            final(self).answer() == old(self).answer(),
            final(self).sign() == old(self).sign(),
    {
        self.trace.push(state);
        proof {
            assert(self.events() =~= old(self).events().push(state@));
        }
    }

    /// Takes the session apart: the matrix, the solution, the determinant, the trace.
    pub fn unbox(self) -> (parts: (Matrix<T>, Option<Vec<T>>, Option<T>, Vec<State<T>>))
        ensures
            parts.0@ == self.matrix(),
            parts.0.wf() == self.wf_matrix(),
            match parts.1 {
                Some(x) => self.answer() == Some(x@),
                None => self.answer() is None,
            },
            parts.2 == self.sign(),
            events_of(parts.3@) == self.events(),
    {
        let Gauss { a, x, det, trace } = self;
        (a, x, det, trace)
    }

    /// Whether the matrix inside holds exactly its cells.
    pub closed spec fn wf_matrix(&self) -> bool {
        self.a.wf()
    }

    /// The elimination of step `iter`, once the pivot row stands in row `iter`.
    fn modify(&mut self, iter: usize)
        requires
            old(self).wf(),
            iter < old(self).matrix().height(),
        ensures
            final(self).wf(),
            final(self).matrix() == swept(
                old(self).matrix(),
                iter as int,
                old(self).matrix().cell(iter as int, iter as int),
            ),
            final(self).events() == old(self).events(),
            final(self).answer() == old(self).answer(),
            final(self).sign() == old(self).sign(),
    {
        let ghost start = self.matrix();
        let rows = self.a.height();
        let cols = self.a.width();
        let ghost pivot = self.matrix().cell(iter as int, iter as int);
        let first = T::one().over(*self.at(iter, iter));
        proof {
            self.a.lemma_view();
        }
        let mut col = iter;
        while col < cols
            invariant
                self.wf(),
                start.wf(),
                self.matrix().wf(),
                self.matrix().height() == start.height(),
                self.matrix().width == start.width,
                rows == start.height(),
                cols == start.width,
                iter < rows,
                iter <= col <= cols,
                first == T::spec_one().spec_over(pivot),
                self.events() == old(self).events(),
                self.answer() == old(self).answer(),
                self.sign() == old(self).sign(),
                forall|r: int|
                    0 <= r < rows && r != iter ==> #[trigger] self.matrix().rows[r]
                        == start.rows[r],
                forall|c: int|
                    0 <= c < col ==> #[trigger] self.matrix().rows[iter as int][c] == scaled_row(
                        start,
                        iter as int,
                        pivot,
                    )[c],
                forall|c: int|
                    col <= c < cols ==> #[trigger] self.matrix().rows[iter as int][c]
                        == start.rows[iter as int][c],
            decreases cols - col,
        {
            let cell = self.at_mut(iter, col);
            *cell = (*cell).times(first);
            proof {
                self.a.lemma_view();
            }
            col += 1;
        }
        proof {
            assert(self.matrix().rows[iter as int] =~= scaled_row(start, iter as int, pivot));
        }
        let ghost target = swept(start, iter as int, pivot);
        let mut row = iter + 1;
        while row < rows
            invariant
                self.wf(),
                start.wf(),
                self.matrix().wf(),
                self.matrix().height() == start.height(),
                self.matrix().width == start.width,
                rows == start.height(),
                cols == start.width,
                iter < row <= rows,
                iter < cols,
                target == swept(start, iter as int, pivot),
                self.events() == old(self).events(),
                self.answer() == old(self).answer(),
                self.sign() == old(self).sign(),
                forall|r: int| 0 <= r < row ==> #[trigger] self.matrix().rows[r] == target.rows[r],
                forall|r: int|
                    row <= r < rows ==> #[trigger] self.matrix().rows[r] == start.rows[r],
            decreases rows - row,
        {
            let ghost outer = self.matrix();
            let first = *self.at(row, iter);
            let mut col = iter;
            while col < cols
                invariant
                    self.wf(),
                    start.wf(),
                    self.matrix().wf(),
                    self.matrix().height() == start.height(),
                    self.matrix().width == start.width,
                    rows == start.height(),
                    cols == start.width,
                    iter < row < rows,
                    iter <= col <= cols,
                    first == start.rows[row as int][iter as int],
                    target == swept(start, iter as int, pivot),
                    outer.rows[iter as int] == target.rows[iter as int],
                    self.events() == old(self).events(),
                    self.answer() == old(self).answer(),
                    self.sign() == old(self).sign(),
                    forall|r: int|
                        0 <= r < rows && r != row ==> #[trigger] self.matrix().rows[r]
                            == outer.rows[r],
                    forall|c: int|
                        0 <= c < col ==> #[trigger] self.matrix().rows[row as int][c]
                            == target.rows[row as int][c],
                    forall|c: int|
                        col <= c < cols ==> #[trigger] self.matrix().rows[row as int][c]
                            == start.rows[row as int][c],
                decreases cols - col,
            {
                let source = self.at(iter, col).times(first);
                let cell = self.at_mut(row, col);
                *cell = (*cell).minus(source);
                proof {
                    self.a.lemma_view();
                }
                col += 1;
            }
            proof {
                assert(self.matrix().rows[row as int] =~= target.rows[row as int]);
            }
            row += 1;
        }
        proof {
            assert(self.matrix().rows =~= target.rows);
        }
    }

    /// Step `iter`: the pivot search, the exchange where one is needed, the elimination.
    fn next(&mut self, iter: usize)
        requires
            old(self).wf(),
            iter < old(self).matrix().height(),
        ensures
            final(self).wf(),
            final(self).matrix() == step_grid(old(self).matrix(), iter as int),
            final(self).events() == old(self).events() + step_events(
                old(self).matrix(),
                iter as int,
            ),
            final(self).answer() == old(self).answer(),
            final(self).sign() == old(self).sign(),
    {
        proof {
            self.a.lemma_view();
            lemma_step_shape(self.matrix(), iter as int);
        }
        let ghost start = self.matrix();
        let main = self.a.max_in_col(iter, Some(iter));
        let value = *self.at(main, iter);
        self.log(State::Main { iter, row: main, column: iter, value });
        if main != iter {
            self.a.swap_rows(main, iter);
            let n = self.a.height();
            self.log(State::Swapped { iter, a: main, b: iter, n });
        } else {
            proof {
                assert(start.swap_rows(iter as int, iter as int).rows =~= start.rows);
            }
        }
        proof {
            self.a.lemma_view();
        }
        self.modify(iter);
        let matrix = self.a.copy();
        self.log(State::Modified { iter, matrix });
        proof {
            assert(self.events() =~= old(self).events() + step_events(start, iter as int));
        }
    }

    fn forward_pass(&mut self)
        requires
            old(self).wf(),
        ensures
            final(self).wf(),
            final(self).matrix() == forward_grid(
                old(self).matrix(),
                old(self).matrix().height(),
            ),
            final(self).events() == old(self).events() + forward_events(
                old(self).matrix(),
                old(self).matrix().height(),
            ),
            final(self).answer() == old(self).answer(),
            final(self).sign() == old(self).sign(),
    {
        let ghost start = self.matrix();
        let height = self.a.height();
        let mut iter: usize = 0;
        proof {
            self.a.lemma_view();
            assert(self.events() =~= old(self).events() + forward_events(start, 0));
        }
        while iter < height
            invariant
                self.wf(),
                start.wf(),
                start == old(self).matrix(),
                height == start.height(),
                iter <= height,
                self.matrix() == forward_grid(start, iter as nat),
                self.events() == old(self).events() + forward_events(start, iter as nat),
                self.answer() == old(self).answer(),
                self.sign() == old(self).sign(),
            decreases height - iter,
        {
            proof {
                lemma_forward_shape(start, iter as nat);
            }
            let ghost before = self.events();
            self.next(iter);
            proof {
                assert(self.events() =~= old(self).events() + forward_events(
                    start,
                    (iter + 1) as nat,
                ));
            }
            iter += 1;
        }
    }

    /// Reads the solution off the matrix, from the last row to the first.
    fn backward_pass(&self) -> (x: Vec<T>)
        requires
            self.wf(),
        ensures
            x@ == solution(self.matrix()),
    {
        let rows = self.a.height();
        let cols = self.a.width();
        let mut x: Vec<T> = Vec::new();
        let mut filled: usize = 0;
        while filled < rows
            invariant
                filled <= rows,
                x@.len() == filled,
            decreases rows - filled,
        {
            x.push(T::zero());
            filled += 1;
        }
        let mut k: usize = 1;
        while k <= rows
            invariant
                self.wf(),
                rows == self.matrix().height(),
                cols == self.matrix().width,
                1 <= k <= rows + 1,
                x@.len() == rows,
                forall|i: int|
                    rows - k < i < rows ==> #[trigger] x@[i] == solution(self.matrix())[i],
            decreases rows + 1 - k,
        {
            let i = rows - k;
            let mut rest = *self.at(i, cols - 1);
            let mut j = i + 1;
            while j < rows
                invariant
                    self.wf(),
                    rows == self.matrix().height(),
                    cols == self.matrix().width,
                    i < j <= rows,
                    rest == back_entry(self.matrix(), i as int, j as int),
                decreases rows - j,
            {
                rest = rest.minus(*self.at(i, j));
                j += 1;
            }
            x[i] = rest;
            k += 1;
        }
        proof {
            assert(x@ =~= solution(self.matrix()));
        }
        x
    }

    /// The determinant that the trace stands for.
    fn det(&self) -> (det: T)
        ensures
            det == determinant(self.events()),
    {
        let mut det = T::one();
        let mut swaps: usize = 0;
        let mut k: usize = 0;
        while k < self.trace.len()
            invariant
                k <= self.trace@.len(),
                det == pivot_product(self.events(), k as int),
                swaps == swap_count(self.events(), k as int),
                swaps <= k,
            decreases self.trace@.len() - k,
        {
            match &self.trace[k] {
                State::Main { iter: _, row: _, column: _, value } => {
                    det = det.times(*value);
                },
                State::Swapped { iter: _, a: _, b: _, n: _ } => {
                    swaps += 1;
                },
                _ => {},
            }
            k += 1;
        }
        let mut turned: usize = 0;
        while turned < swaps
            invariant
                turned <= swaps,
                det == flipped(
                    pivot_product(self.events(), self.events().len() as int),
                    turned as nat,
                ),
            decreases swaps - turned,
        {
            det = det.negated();
            turned += 1;
        }
        det
    }

    /// Runs the session to its end: every step of the forward pass, then the
    /// solution and the determinant, which are kept and recorded as the last entry
    /// of the trace.
    pub fn solve(&mut self)
        requires
            old(self).wf(),
        ensures
            final(self).wf(),
            final(self).matrix() == forward_grid(
                old(self).matrix(),
                old(self).matrix().height(),
            ),
            final(self).answer() == Some(solution(final(self).matrix())),
            final(self).sign() == Some(
                determinant(
                    old(self).events() + forward_events(
                        old(self).matrix(),
                        old(self).matrix().height(),
                    ),
                ),
            ),
            final(self).events() == (old(self).events() + forward_events(
                old(self).matrix(),
                old(self).matrix().height(),
            )).push(
                Event::Solved {
                    x: final(self).answer().unwrap(),
                    det: final(self).sign().unwrap(),
                },
            ),
    {
        self.forward_pass();
        let x = self.backward_pass();
        let det = self.det();
        let kept = duplicate(&x);
        self.x = Some(kept);
        self.det = Some(det);
        self.log(State::Solved { x, det });
    }
}

} // verus!

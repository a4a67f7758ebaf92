//! The mathematical model shared by every matrix in this crate.

use vstd::prelude::*;

verus! {

/// A rectangular arrangement of cells: `rows.len()` rows, each of length `width`.
///
/// The width is kept beside the rows so that a matrix without rows still has one.
pub struct Grid<T> {
    pub width: nat,
    pub rows: Seq<Seq<T>>,
}

impl<T> Grid<T> {
    pub open spec fn height(self) -> nat {
        self.rows.len()
    }

    /// Every row has exactly `width` cells.
    pub open spec fn wf(self) -> bool {
        forall|i: int| 0 <= i < self.rows.len() ==> (#[trigger] self.rows[i]).len() == self.width
    }

    /// Whether `(row, column)` names a cell of the grid.
    pub open spec fn holds(self, row: int, column: int) -> bool {
        0 <= row < self.height() && 0 <= column < self.width
    }

    pub open spec fn cell(self, row: int, column: int) -> T {
        self.rows[row][column]
    }

    /// The grid with one cell replaced.
    pub open spec fn set(self, row: int, column: int, value: T) -> Grid<T> {
        Grid { width: self.width, rows: self.rows.update(row, self.rows[row].update(column, value)) }
    }

    /// The grid with rows `a` and `b` exchanged.
    pub open spec fn swap_rows(self, a: int, b: int) -> Grid<T> {
        Grid { width: self.width, rows: self.rows.update(a, self.rows[b]).update(b, self.rows[a]) }
    }

    /// The grid with columns `a` and `b` exchanged in every row.
    pub open spec fn swap_columns(self, a: int, b: int) -> Grid<T> {
        Grid {
            width: self.width,
            rows: Seq::new(
                self.rows.len(),
                |i: int| self.rows[i].update(a, self.rows[i][b]).update(b, self.rows[i][a]),
            ),
        }
    }

    /// Rows become columns and columns become rows.
    pub open spec fn transposed(self) -> Grid<T> {
        Grid {
            width: self.height(),
            rows: Seq::new(self.width, |j: int| Seq::new(self.height(), |i: int| self.rows[i][j])),
        }
    }

    /// The grid with the cells of `right` appended to each row.
    pub open spec fn beside(self, right: Grid<T>) -> Grid<T> {
        Grid {
            width: self.width + right.width,
            rows: Seq::new(self.rows.len(), |i: int| self.rows[i] + right.rows[i]),
        }
    }

    /// The columns `from..to` of the grid.
    pub open spec fn columns(self, from: int, to: int) -> Grid<T> {
        Grid {
            width: (to - from) as nat,
            rows: Seq::new(self.rows.len(), |i: int| self.rows[i].subrange(from, to)),
        }
    }

    /// The grid whose cell `(i, j)` is the cell `(rows[i], columns[j])` of this one.
    pub open spec fn picked(self, rows: Seq<int>, columns: Seq<int>) -> Grid<T> {
        Grid {
            width: columns.len(),
            rows: Seq::new(
                rows.len(),
                |i: int| Seq::new(columns.len(), |j: int| self.rows[rows[i]][columns[j]]),
            ),
        }
    }

    /// The grid whose row `row` holds, at each position `x`, what that row held at
    /// `order[x]`.
    pub open spec fn with_row_picked(self, row: int, order: Seq<int>) -> Grid<T> {
        Grid {
            width: self.width,
            rows: self.rows.update(row, Seq::new(self.width, |x: int| self.rows[row][order[x]])),
        }
    }

    /// The grid whose column `column` holds, at each position `x`, what that column
    /// held at `order[x]`.
    pub open spec fn with_column_picked(self, column: int, order: Seq<int>) -> Grid<T> {
        Grid {
            width: self.width,
            rows: Seq::new(
                self.rows.len(),
                |x: int| self.rows[x].update(column, self.rows[order[x]][column]),
            ),
        }
    }

    /// The grid read from a row-major buffer.
    pub open spec fn from_flat(height: nat, width: nat, data: Seq<T>) -> Grid<T> {
        Grid {
            width,
            rows: Seq::new(height, |i: int| Seq::new(width, |j: int| data[i * width + j])),
        }
    }

    /// Replacing a cell and transposing is transposing and replacing the mirrored cell.
    pub proof fn lemma_transposed_set(self, row: int, column: int, value: T)
        requires
            self.wf(),
            self.holds(row, column),
        ensures
            self.set(row, column, value).transposed() == self.transposed().set(
                column,
                row,
                value,
            ),
    {
        let left = self.set(row, column, value).transposed();
        let right = self.transposed().set(column, row, value);
        assert forall|i: int| 0 <= i < left.rows.len() implies left.rows[i] =~= right.rows[i] by {
            assert forall|j: int| 0 <= j < left.rows[i].len() implies left.rows[i][j]
                == right.rows[i][j] by {
                assert(self.rows[j].len() == self.width);
            }
        }
        assert(left.rows =~= right.rows);
    }

    /// The two parts of a grid put beside another are its leading and its trailing
    /// columns.
    pub proof fn lemma_beside_columns(self, right: Grid<T>)
        requires
            self.wf(),
            right.wf(),
            self.height() == right.height(),
        ensures
            self.beside(right).wf(),
            self.beside(right).columns(0, self.width as int) == self,
            self.beside(right).columns(self.width as int, (self.width + right.width) as int) == right,
    {
        let whole = self.beside(right);
        assert forall|i: int| 0 <= i < whole.rows.len() implies (#[trigger] whole.rows[i]).len()
            == whole.width by {
            assert(self.rows[i].len() == self.width);
            assert(right.rows[i].len() == right.width);
        }
        let first = whole.columns(0, self.width as int);
        let second = whole.columns(self.width as int, (self.width + right.width) as int);
        assert forall|i: int| 0 <= i < self.rows.len() implies first.rows[i] =~= self.rows[i]
            && second.rows[i] =~= right.rows[i] by {
            assert(self.rows[i].len() == self.width);
            assert(right.rows[i].len() == right.width);
        }
        assert(first.rows =~= self.rows);
        assert(second.rows =~= right.rows);
    }

    /// Two well-formed grids of the same shape with the same cells are the same grid.
    pub proof fn lemma_equal(self, other: Grid<T>)
        requires
            self.wf(),
            other.wf(),
            self.width == other.width,
            self.height() == other.height(),
            forall|i: int, j: int|
                0 <= i < self.height() && 0 <= j < self.width ==> self.rows[i][j]
                    == other.rows[i][j],
        ensures
            self == other,
    {
        assert forall|i: int| 0 <= i < self.rows.len() implies self.rows[i] =~= other.rows[i] by {
            assert(self.rows[i].len() == self.width);
            assert(other.rows[i].len() == self.width);
        }
        assert(self.rows =~= other.rows);
    }
}

/// A position in a row-major buffer determines its row and column.
pub proof fn lemma_flat_index(width: int, r1: int, c1: int, r2: int, c2: int)
    requires
        0 <= c1 < width,
        0 <= c2 < width,
        0 <= r1,
        0 <= r2,
        r1 * width + c1 == r2 * width + c2,
    ensures
        r1 == r2,
        c1 == c2,
{
    if r1 < r2 {
        assert((r1 + 1) * width <= r2 * width) by (nonlinear_arith)
            requires
                r1 + 1 <= r2,
                0 <= width,
        ;
        assert((r1 + 1) * width == r1 * width + width) by (nonlinear_arith);
    } else if r2 < r1 {
        assert((r2 + 1) * width <= r1 * width) by (nonlinear_arith)
            requires
                r2 + 1 <= r1,
                0 <= width,
        ;
        assert((r2 + 1) * width == r2 * width + width) by (nonlinear_arith);
    }
}

/// Replacing one position of a row-major buffer replaces one cell of the grid read
/// from it.
pub proof fn lemma_flat_set<T>(height: nat, width: nat, data: Seq<T>, row: int, column: int, value: T)
    requires
        data.len() == height * width,
        0 <= row < height,
        0 <= column < width,
    ensures
        Grid::from_flat(height, width, data.update(row * width + column, value))
            == Grid::from_flat(height, width, data).set(row, column, value),
{
    let left = Grid::from_flat(height, width, data.update(row * width + column, value));
    let right = Grid::from_flat(height, width, data).set(row, column, value);
    lemma_flat_bound(height as int, width as int, row, column);
    assert forall|i: int, j: int|
        0 <= i < left.height() && 0 <= j < left.width implies left.rows[i][j]
        == right.rows[i][j] by {
        lemma_flat_bound(height as int, width as int, i, j);
        if i * width + j == row * width + column {
            lemma_flat_index(width as int, i, j, row, column);
        }
    }
    left.lemma_equal(right);
}

/// A cell of a `height` by `width` matrix lies inside its row-major buffer.
pub proof fn lemma_flat_bound(height: int, width: int, row: int, column: int)
    requires
        0 <= row < height,
        0 <= column < width,
    ensures
        0 <= row * width + column < height * width,
{
    assert(row * width + width <= height * width) by (nonlinear_arith)
        requires
            row + 1 <= height,
            0 <= width,
    ;
    assert(0 <= row * width) by (nonlinear_arith)
        requires
            0 <= row,
            0 <= width,
    ;
}

/// An exchange of two rows or of two columns.
pub enum Swap {
    Rows { a: int, b: int },
    Columns { a: int, b: int },
}

impl<T> Grid<T> {
    /// The grid after one exchange. An exchange that names a row or a column that
    /// the grid does not have leaves it as it is.
    pub open spec fn swapped(self, swap: Swap) -> Grid<T> {
        match swap {
            Swap::Rows { a, b } => if 0 <= a < self.height() && 0 <= b < self.height() {
                self.swap_rows(a, b)
            } else {
                self
            },
            Swap::Columns { a, b } => if 0 <= a < self.width && 0 <= b < self.width {
                self.swap_columns(a, b)
            } else {
                self
            },
        }
    }

    /// The grid after the exchanges of `swaps`, made from the first to the last.
    pub open spec fn swapped_all(self, swaps: Seq<Swap>) -> Grid<T>
        decreases swaps.len(),
    {
        if swaps.len() == 0 {
            self
        } else {
            self.swapped_all(swaps.drop_last()).swapped(swaps.last())
        }
    }

    /// The grid after the exchanges of `swaps`, made from the last to the first.
    pub open spec fn swapped_back(self, swaps: Seq<Swap>) -> Grid<T>
        decreases swaps.len(),
    {
        if swaps.len() == 0 {
            self
        } else {
            self.swapped(swaps.last()).swapped_back(swaps.drop_last())
        }
    }

    /// An exchange keeps the shape of the grid, and made twice it changes nothing.
    pub proof fn lemma_swapped_twice(self, swap: Swap)
        requires
            self.wf(),
        ensures
            self.swapped(swap).wf(),
            self.swapped(swap).height() == self.height(),
            self.swapped(swap).width == self.width,
            self.swapped(swap).swapped(swap) == self,
    {
        let once = self.swapped(swap);
        let twice = once.swapped(swap);
        assert forall|i: int| 0 <= i < once.rows.len() implies (#[trigger] once.rows[i]).len()
            == once.width by {
            assert(self.rows[i].len() == self.width);
            match swap {
                Swap::Rows { a, b } => {
                    if 0 <= a < self.height() && 0 <= b < self.height() {
                        assert(self.rows[a].len() == self.width);
                        assert(self.rows[b].len() == self.width);
                    }
                },
                Swap::Columns { a, b } => {},
            }
        }
        assert forall|i: int| 0 <= i < self.rows.len() implies twice.rows[i] =~= self.rows[i] by {
            assert(self.rows[i].len() == self.width);
            assert(once.rows[i].len() == self.width);
        }
        assert(twice.rows =~= self.rows);
    }

    /// A run of exchanges keeps the shape of the grid.
    pub proof fn lemma_swapped_all_shape(self, swaps: Seq<Swap>)
        requires
            self.wf(),
        ensures
            self.swapped_all(swaps).wf(),
            self.swapped_all(swaps).height() == self.height(),
            self.swapped_all(swaps).width == self.width,
        decreases swaps.len(),
    {
        if swaps.len() > 0 {
            self.lemma_swapped_all_shape(swaps.drop_last());
            self.swapped_all(swaps.drop_last()).lemma_swapped_twice(swaps.last());
        }
    }

    /// A run of exchanges can be made in two parts.
    pub proof fn lemma_swapped_all_split(self, first: Seq<Swap>, second: Seq<Swap>)
        ensures
            self.swapped_all(first + second) == self.swapped_all(first).swapped_all(second),
        decreases second.len(),
    {
        if second.len() == 0 {
            assert(first + second =~= first);
        } else {
            self.lemma_swapped_all_split(first, second.drop_last());
            assert((first + second).drop_last() =~= first + second.drop_last());
            assert((first + second).last() == second.last());
        }
    }

    /// Making the exchanges from the last to the first is making the reversed run.
    pub proof fn lemma_swapped_back_is_reversed(self, swaps: Seq<Swap>)
        ensures
            self.swapped_back(swaps) == self.swapped_all(swaps.reverse()),
        decreases swaps.len(),
    {
        if swaps.len() == 0 {
            assert(swaps.reverse() =~= swaps);
        } else {
            let head = seq![swaps.last()];
            let tail = swaps.drop_last().reverse();
            assert(swaps.reverse() =~= head + tail);
            self.lemma_swapped_all_split(head, tail);
            assert(head.drop_last().len() == 0);
            assert(self.swapped_all(head.drop_last()) == self);
            assert(head.last() == swaps.last());
            assert(self.swapped_all(head) == self.swapped(swaps.last()));
            self.swapped(swaps.last()).lemma_swapped_back_is_reversed(swaps.drop_last());
        }
    }

    /// Any run of exchanges of rows and columns, followed by the same exchanges in
    /// reverse order, leaves the grid as it was. Each exchange is its own inverse.
    pub proof fn lemma_swaps_undone(self, swaps: Seq<Swap>)
        requires
            self.wf(),
        ensures
            self.swapped_all(swaps).swapped_back(swaps) == self,
            self.swapped_all(swaps).swapped_all(swaps.reverse()) == self,
        decreases swaps.len(),
    {
        if swaps.len() > 0 {
            let before = self.swapped_all(swaps.drop_last());
            self.lemma_swapped_all_shape(swaps.drop_last());
            before.lemma_swapped_twice(swaps.last());
            self.lemma_swaps_undone(swaps.drop_last());
        }
        self.swapped_all(swaps).lemma_swapped_back_is_reversed(swaps);
    }
}

} // verus!

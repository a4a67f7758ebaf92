//! A dense matrix whose rows and columns are permuted without moving its cells.

use crate::axis::{
    axis_lookup, axis_order, axis_size, axis_swap, identity, is_permutation,
    lemma_axis_size, lemma_exchanged_is_permutation, lemma_identity_is_permutation,
};
use crate::grid::{lemma_flat_bound, lemma_flat_index, Grid};
use crate::traits::{sync_each_column, sync_each_row, Mapped, Matrix};
use either::Either;
use vstd::prelude::*;
use vstd::std_specs::cmp::PartialEqSpec;

verus! {

/// A row-major buffer of `height * width` cells, read through an order of its rows
/// and an order of its columns.
#[derive(Debug, Clone)]
pub struct Array2d<T> {
    rows: Either<usize, Vec<usize>>,
    columns: Either<usize, Vec<usize>>,
    data: Vec<T>,
}

impl<T: Default + Clone> Array2d<T> {
    /// Builds the matrix all of whose cells are clones of one default value.
    pub fn default(height: usize, width: usize) -> (made: Array2d<T>)
        requires
            height * width <= usize::MAX,
        ensures
            made.wf(),
            made.grid().height() == height,
            made.grid().width == width,
            made.row_order() == identity(height as nat),
            made.column_order() == identity(width as nat),
            exists|seed: T|
                {
                    &&& call_ensures(T::default, (), seed)
                    &&& forall|i: int, j: int|
                        0 <= i < height && 0 <= j < width ==> cloned(
                            seed,
                            #[trigger] made.grid().cell(i, j),
                        )
                },
    {
        let seed = T::default();
        let data = vec![seed; height * width];
        let made = Array2d { rows: Either::Left(height), columns: Either::Left(width), data };
        proof {
            lemma_identity_is_permutation(height as nat);
            lemma_identity_is_permutation(width as nat);
            assert forall|i: int, j: int| 0 <= i < height && 0 <= j < width implies cloned(
                seed,
                #[trigger] made.grid().cell(i, j),
            ) by {
                lemma_flat_bound(height as int, width as int, i, j);
                assert(made.grid().cell(i, j) == made.data@[i * width + j]);
            }
        }
        made
    }
}

impl<T> Array2d<T> {
    /// The cells as the buffer holds them, row by row in stored order.
    pub closed spec fn buffer(&self) -> Seq<T> {
        self.data@
    }

    /// Writing one stored cell changes the one logical cell that is read from it.
    proof fn lemma_write(self, after: Array2d<T>, row: int, column: int, value: T)
        requires
            self.wf(),
            self.grid().holds(row, column),
            after.rows == self.rows,
            after.columns == self.columns,
            after.data@ == self.data@.update(
                axis_order(self.rows)[row] * axis_order(self.columns).len() + axis_order(
                    self.columns,
                )[column],
                value,
            ),
        ensures
            after.wf(),
            after.grid() == self.grid().set(row, column, value),
            after.stored() == self.stored().set(
                axis_order(self.rows)[row],
                axis_order(self.columns)[column],
                value,
            ),
    {
        let width = axis_order(self.columns).len() as int;
        let height = axis_order(self.rows).len() as int;
        let stored_row = axis_order(self.rows)[row];
        let stored_column = axis_order(self.columns)[column];
        lemma_flat_bound(height, width, stored_row, stored_column);
        let target = self.grid().set(row, column, value);
        assert forall|i: int, j: int|
            0 <= i < target.height() && 0 <= j < target.width implies after.grid().rows[i][j]
            == target.rows[i][j] by {
            let r = axis_order(self.rows)[i];
            let c = axis_order(self.columns)[j];
            lemma_flat_bound(height, width, r, c);
            if r * width + c == stored_row * width + stored_column {
                lemma_flat_index(width, r, c, stored_row, stored_column);
            }
        }
        after.grid().lemma_equal(target);
        let kept = self.stored().set(stored_row, stored_column, value);
        assert forall|i: int, j: int|
            0 <= i < kept.height() && 0 <= j < kept.width implies after.stored().rows[i][j]
            == kept.rows[i][j] by {
            lemma_flat_bound(height, width, i, j);
            if i * width + j == stored_row * width + stored_column {
                lemma_flat_index(width, i, j, stored_row, stored_column);
            }
        }
        after.stored().lemma_equal(kept);
    }

    /// Builds the matrix whose cell `(i, j)` is `f(i, j)`, calling `f` row by row.
    pub fn gen<F: Fn(usize, usize) -> T>(height: usize, width: usize, f: F) -> (made: Array2d<T>)
        requires
            height * width <= usize::MAX,
            forall|i: usize, j: usize| i < height && j < width ==> call_requires(f, (i, j)),
        ensures
            made.wf(),
            made.grid().height() == height,
            made.grid().width == width,
            forall|i: usize, j: usize|
                i < height && j < width ==> call_ensures(
                    f,
                    (i, j),
                    #[trigger] made.grid().cell(i as int, j as int),
                ),
            made.row_order() == identity(height as nat),
            made.column_order() == identity(width as nat),
    {
        let mut data: Vec<T> = Vec::new();
        let mut i: usize = 0;
        while i < height
            invariant
                i <= height,
                height * width <= usize::MAX,
                data@.len() == i * width,
                forall|r: usize, c: usize|
                    r < height && c < width ==> call_requires(f, (r, c)),
                forall|r: usize, c: usize|
                    r < i && c < width ==> call_ensures(
                        f,
                        (r, c),
                        #[trigger] data@[r * width + c],
                    ),
            decreases height - i,
        {
            let mut j: usize = 0;
            while j < width
                invariant
                    i < height,
                    j <= width,
                    height * width <= usize::MAX,
                    data@.len() == i * width + j,
                    forall|r: usize, c: usize|
                        r < height && c < width ==> call_requires(f, (r, c)),
                    forall|r: usize, c: usize|
                        r < i && c < width ==> call_ensures(
                            f,
                            (r, c),
                            #[trigger] data@[r * width + c],
                        ),
                    forall|c: usize|
                        c < j ==> call_ensures(f, (i, c), #[trigger] data@[i * width + c]),
                decreases width - j,
            {
                let ghost before = data@;
                let value = f(i, j);
                data.push(value);
                proof {
                    assert forall|r: usize, c: usize| r < i && c < width implies call_ensures(
                        f,
                        (r, c),
                        #[trigger] data@[r * width + c],
                    ) by {
                        lemma_flat_bound(i as int, width as int, r as int, c as int);
                        assert(data@[r * width + c] == before[r * width + c]);
                    }
                    assert forall|c: usize| c < j + 1 implies call_ensures(
                        f,
                        (i, c),
                        #[trigger] data@[i * width + c],
                    ) by {
                        if c < j {
                            assert(data@[i * width + c] == before[i * width + c]);
                        }
                    }
                }
                j += 1;
            }
            proof {
                assert((i + 1) * width == i * width + width) by (nonlinear_arith);
                assert forall|r: usize, c: usize| r < i + 1 && c < width implies call_ensures(
                    f,
                    (r, c),
                    #[trigger] data@[r * width + c],
                ) by {
                    if r == i {
                        assert(call_ensures(f, (i, c), data@[i * width + c]));
                    }
                }
            }
            i += 1;
        }
        let made = Array2d { rows: Either::Left(height), columns: Either::Left(width), data };
        proof {
            lemma_identity_is_permutation(height as nat);
            lemma_identity_is_permutation(width as nat);
            assert forall|r: usize, c: usize| r < height && c < width implies call_ensures(
                f,
                (r, c),
                #[trigger] made.grid().cell(r as int, c as int),
            ) by {
                assert(made.grid().cell(r as int, c as int) == made.data@[r * width + c]);
            }
        }
        made
    }

    /// Takes a row-major buffer as a matrix, or hands it back if it does not hold
    /// exactly `height * width` cells.
    pub fn try_from(height: usize, width: usize, data: Vec<T>) -> (made: Result<
        Array2d<T>,
        Vec<T>,
    >)
        ensures
            made is Ok <==> height * width == data@.len(),
            made matches Ok(m) ==> {
                &&& m.wf()
                &&& m.grid() == Grid::from_flat(height as nat, width as nat, data@)
                &&& m.row_order() == identity(height as nat)
                &&& m.column_order() == identity(width as nat)
                &&& m.buffer() == data@
            },
            made matches Err(rejected) ==> rejected == data,
    {
        let length = data.len();
        let fits = match height.checked_mul(width) {
            Some(cells) => cells == length,
            None => false,
        };
        if fits {
            let ghost cells = data@;
            let made = Array2d { rows: Either::Left(height), columns: Either::Left(width), data };
            proof {
                lemma_identity_is_permutation(height as nat);
                lemma_identity_is_permutation(width as nat);
                let direct = Grid::from_flat(height as nat, width as nat, cells);
                assert forall|i: int| 0 <= i < height implies made.grid().rows[i]
                    =~= direct.rows[i] by {}
                assert(made.grid().rows =~= direct.rows);
            }
            Ok(made)
        } else {
            Err(data)
        }
    }
}

impl<T> Matrix for Array2d<T> {
    type Item = T;

    closed spec fn wf(&self) -> bool {
        &&& is_permutation(axis_order(self.rows))
        &&& is_permutation(axis_order(self.columns))
        &&& self.data@.len() == axis_order(self.rows).len() * axis_order(self.columns).len()
    }

    closed spec fn grid(&self) -> Grid<T> {
        self.stored().picked(axis_order(self.rows), axis_order(self.columns))
    }

    proof fn lemma_grid_wf(&self) {
        lemma_axis_size(self.rows);
        lemma_axis_size(self.columns);
    }

    fn at(&self, row: usize, column: usize) -> (cell: Option<&T>) {
        let width = self.width();
        proof {
            assert(self.data@.len() == self.data.len());
        }
        let row = axis_lookup(&self.rows, row)?;
        let column = axis_lookup(&self.columns, column)?;
        proof {
            lemma_flat_bound(
                axis_order(self.rows).len() as int,
                width as int,
                row as int,
                column as int,
            );
        }
        Some(&self.data[row * width + column])
    }

    fn at_mut(&mut self, row: usize, column: usize) -> (cell: Option<&mut T>)
        ensures
            final(self).row_order() == old(self).row_order(),
            final(self).column_order() == old(self).column_order(),
            cell is None ==> *final(self) == *old(self),
            cell matches Some(value) ==> final(self).stored() == old(self).stored().set(
                old(self).row_order()[row as int],
                old(self).column_order()[column as int],
                *final(value),
            ),
    {
        let width = self.width();
        proof {
            assert(self.data@.len() == self.data.len());
        }
        let stored_row = match axis_lookup(&self.rows, row) {
            Some(r) => r,
            None => { return None; },
        };
        let stored_column = match axis_lookup(&self.columns, column) {
            Some(c) => c,
            None => { return None; },
        };
        proof {
            lemma_flat_bound(
                axis_order(self.rows).len() as int,
                width as int,
                stored_row as int,
                stored_column as int,
            );
        }
        proof {
            let before = *self;
            let index = stored_row * width + stored_column;
            assert(0 <= index < before.data@.len());
            assert forall|after: Array2d<T>, value: T|
                #![trigger after.grid(), before.data@.update(index, value)]
                after.rows == before.rows && after.columns == before.columns && after.data@
                    == before.data@.update(index, value) implies after.wf() && after.grid()
                == before.grid().set(row as int, column as int, value) by {
                before.lemma_write(after, row as int, column as int, value);
            }
            assert forall|after: Array2d<T>, value: T|
                #![trigger after.stored(), before.data@.update(index, value)]
                after.rows == before.rows && after.columns == before.columns && after.data@
                    == before.data@.update(index, value) implies after.stored()
                == before.stored().set(stored_row as int, stored_column as int, value) by {
                before.lemma_write(after, row as int, column as int, value);
            }
        }
        let cell = &mut self.data[stored_row * width + stored_column];
        Some(cell)
    }

    fn height(&self) -> (height: usize) {
        axis_size(&self.rows)
    }

    fn width(&self) -> (width: usize) {
        axis_size(&self.columns)
    }

    fn swap_rows(&mut self, a: usize, b: usize) -> (done: Option<()>)
        ensures
            final(self).buffer() == old(self).buffer(),
            done is None ==> *final(self) == *old(self),
    {
        let done = axis_swap(&mut self.rows, a, b);
        proof {
            if done is Some {
                lemma_exchanged_is_permutation(axis_order(old(self).rows), a as int, b as int);
                let target = old(self).grid().swap_rows(a as int, b as int);
                assert forall|i: int| 0 <= i < target.height() implies self.grid().rows[i]
                    =~= target.rows[i] by {}
                assert(self.grid().rows =~= target.rows);
            }
        }
        done
    }

    fn swap_columns(&mut self, a: usize, b: usize) -> (done: Option<()>)
        ensures
            final(self).buffer() == old(self).buffer(),
            done is None ==> *final(self) == *old(self),
    {
        let done = axis_swap(&mut self.columns, a, b);
        proof {
            if done is Some {
                lemma_exchanged_is_permutation(axis_order(old(self).columns), a as int, b as int);
                let target = old(self).grid().swap_columns(a as int, b as int);
                assert forall|i: int| 0 <= i < target.height() implies self.grid().rows[i]
                    =~= target.rows[i] by {}
                assert(self.grid().rows =~= target.rows);
            }
        }
        done
    }
}

impl<T> View for Array2d<T> {
    type V = Grid<T>;

    /// The matrix as it reads: its grid.
    open spec fn view(&self) -> Grid<T> {
        self.grid()
    }
}

impl<T> Mapped for Array2d<T> {
    type Item = T;

    type Frame = ();

    open spec fn mapped_wf(&self) -> bool {
        self.wf()
    }

    open spec fn frame(&self) -> () {
        ()
    }

    closed spec fn stored(&self) -> Grid<T> {
        Grid::from_flat(axis_order(self.rows).len(), axis_order(self.columns).len(), self.data@)
    }

    closed spec fn row_order(&self) -> Seq<int> {
        axis_order(self.rows)
    }

    closed spec fn column_order(&self) -> Seq<int> {
        axis_order(self.columns)
    }

    proof fn lemma_mapped_wf(&self) {
        lemma_axis_size(self.rows);
        lemma_axis_size(self.columns);
    }

    fn row(&self, index: usize) -> (stored: Option<usize>) {
        axis_lookup(&self.rows, index)
    }

    fn column(&self, index: usize) -> (stored: Option<usize>) {
        axis_lookup(&self.columns, index)
    }

    fn cell(&mut self, row: usize, column: usize) -> (cell: &mut T) {
        self.at_mut(row, column).unwrap()
    }

    fn reset_rows(&mut self, height: usize) {
        proof {
            lemma_identity_is_permutation(height as nat);
        }
        self.rows = Either::Left(height);
    }

    fn reset_columns(&mut self, width: usize) {
        proof {
            lemma_identity_is_permutation(width as nat);
        }
        self.columns = Either::Left(width);
    }
}

impl<T> Array2d<T> {
    /// The cells of a well-formed matrix can be counted in `usize`.
    pub proof fn lemma_cells(&self)
        requires
            self.wf(),
        ensures
            self.grid().height() * self.grid().width <= usize::MAX,
    {
        assert(self.data@.len() == self.data.len());
    }

    /// The grid is the stored grid read through the two orders, and the stored grid
    /// is the buffer read row by row.
    pub proof fn lemma_grid_is_stored_picked(&self)
        ensures
            self.grid() == self.stored().picked(self.row_order(), self.column_order()),
            self.stored() == Grid::from_flat(
                self.row_order().len(),
                self.column_order().len(),
                self.buffer(),
            ),
    {
    }

    /// Moves the rows into logical order: afterwards the row order is the identity
    /// and the matrix reads as before. `temp` is scratch space and ends as it began.
    pub fn sync_rows(&mut self, temp: &mut T)
        requires
            old(self).wf(),
        ensures
            final(self).wf(),
            final(self).grid() == old(self).grid(),
            final(self).row_order() == identity(old(self).grid().height()),
            final(self).column_order() == old(self).column_order(),
            *final(temp) == *old(temp),
    {
        let height = self.height();
        let width = self.width();
        sync_each_column(self, width, temp);
        self.reset_rows(height);
        proof {
            let target = old(self).grid();
            assert forall|i: int, j: int|
                0 <= i < target.height() && 0 <= j < target.width implies self.grid().rows[i][j]
                == target.rows[i][j] by {}
            self.grid().lemma_equal(target);
        }
    }

    /// Moves the columns into logical order: afterwards the column order is the
    /// identity and the matrix reads as before. `temp` is scratch space and ends as
    /// it began.
    pub fn sync_columns(&mut self, temp: &mut T)
        requires
            old(self).wf(),
        ensures
            final(self).wf(),
            final(self).grid() == old(self).grid(),
            final(self).column_order() == identity(old(self).grid().width),
            final(self).row_order() == old(self).row_order(),
            *final(temp) == *old(temp),
    {
        let height = self.height();
        let width = self.width();
        sync_each_row(self, height, temp);
        self.reset_columns(width);
        proof {
            let target = old(self).grid();
            assert forall|i: int, j: int|
                0 <= i < target.height() && 0 <= j < target.width implies self.grid().rows[i][j]
                == target.rows[i][j] by {}
            self.grid().lemma_equal(target);
        }
    }
}

impl<T> Array2d<T> {
    /// The cell that `==` reads at `(row, column)`: the cell of the grid wherever the
    /// matrix is well-formed.
    pub closed spec fn peek(&self, row: int, column: int) -> Option<T> {
        if 0 <= row < axis_order(self.rows).len() && 0 <= column < axis_order(self.columns).len() {
            let index = axis_order(self.rows)[row] * axis_order(self.columns).len() + axis_order(
                self.columns,
            )[column];
            if 0 <= index < self.data@.len() {
                Some(self.data@[index])
            } else {
                None
            }
        } else {
            None
        }
    }

    pub closed spec fn spec_height(&self) -> nat {
        axis_order(self.rows).len()
    }

    pub closed spec fn spec_width(&self) -> nat {
        axis_order(self.columns).len()
    }

    /// On a well-formed matrix `peek` reads the grid.
    pub proof fn lemma_peek(&self, row: int, column: int)
        requires
            self.wf(),
        ensures
            self.spec_height() == self.grid().height(),
            self.spec_width() == self.grid().width,
            self.grid().holds(row, column) ==> self.peek(row, column) == Some(
                self.grid().cell(row, column),
            ),
            !self.grid().holds(row, column) ==> self.peek(row, column) is None,
    {
        if self.grid().holds(row, column) {
            lemma_flat_bound(
                axis_order(self.rows).len() as int,
                axis_order(self.columns).len() as int,
                axis_order(self.rows)[row],
                axis_order(self.columns)[column],
            );
        }
    }

    fn read(&self, row: usize, column: usize) -> (cell: Option<&T>)
        ensures
            match cell {
                Some(value) => self.peek(row as int, column as int) == Some(*value),
                None => self.peek(row as int, column as int) is None,
            },
    {
        let width = axis_size(&self.columns);
        let length = self.data.len();
        let stored_row = axis_lookup(&self.rows, row)?;
        let stored_column = axis_lookup(&self.columns, column)?;
        match stored_row.checked_mul(width) {
            Some(offset) => match offset.checked_add(stored_column) {
                Some(index) => if index < length {
                    Some(&self.data[index])
                } else {
                    None
                },
                None => None,
            },
            None => {
                proof {
                    assert(stored_row * width + stored_column >= stored_row * width);
                }
                None
            },
        }
    }
}

/// Two cells that `==` reads are alike: both absent, or both present and equal.
pub open spec fn cells_alike<T: PartialEq>(a: Option<T>, b: Option<T>) -> bool {
    match (a, b) {
        (Some(x), Some(y)) => x.eq_spec(&y),
        (None, None) => true,
        _ => false,
    }
}

impl<T: PartialEq> vstd::std_specs::cmp::PartialEqSpecImpl for Array2d<T> {
    open spec fn obeys_eq_spec() -> bool {
        T::obeys_eq_spec()
    }

    /// Equal heights, equal widths, and equal cells at every logical position.
    open spec fn eq_spec(&self, other: &Array2d<T>) -> bool {
        &&& self.spec_height() == other.spec_height()
        &&& self.spec_width() == other.spec_width()
        &&& forall|i: int, j: int|
            0 <= i < self.spec_height() && 0 <= j < self.spec_width() ==> cells_alike(
                #[trigger] self.peek(i, j),
                other.peek(i, j),
            )
    }
}

impl<T: PartialEq> PartialEq for Array2d<T> {
    fn eq(&self, other: &Array2d<T>) -> (same: bool) {
        let height = axis_size(&self.rows);
        let width = axis_size(&self.columns);
        if height != axis_size(&other.rows) {
            return false;
        }
        if width != axis_size(&other.columns) {
            return false;
        }
        let mut i: usize = 0;
        while i < height
            invariant
                i <= height,
                height == self.spec_height(),
                width == self.spec_width(),
                T::obeys_eq_spec() ==> forall|r: int, c: int|
                    0 <= r < i && 0 <= c < width ==> cells_alike(
                        #[trigger] self.peek(r, c),
                        other.peek(r, c),
                    ),
            decreases height - i,
        {
            let mut j: usize = 0;
            while j < width
                invariant
                    i < height,
                    j <= width,
                    height == self.spec_height(),
                    width == self.spec_width(),
                    T::obeys_eq_spec() ==> forall|r: int, c: int|
                        0 <= r < i && 0 <= c < width ==> cells_alike(
                            #[trigger] self.peek(r, c),
                            other.peek(r, c),
                        ),
                    T::obeys_eq_spec() ==> forall|c: int|
                        0 <= c < j ==> cells_alike(#[trigger] self.peek(i as int, c), other.peek(i as int, c)),
                decreases width - j,
            {
                let alike = match (self.read(i, j), other.read(i, j)) {
                    (Some(a), Some(b)) => a == b,
                    (None, None) => true,
                    _ => false,
                };
                if !alike {
                    proof {
                        if T::obeys_eq_spec() {
                            assert(!cells_alike(self.peek(i as int, j as int), other.peek(i as int, j as int)));
                        }
                    }
                    return false;
                }
                j += 1;
            }
            i += 1;
        }
        true
    }
}

impl<T: PartialEq> Array2d<T> {
    /// A matrix whose cells are the cells of a buffer, row by row, and a matrix taken
    /// from that buffer have the same grid; they compare equal wherever every cell
    /// compares equal to itself.
    pub proof fn lemma_round_trip(&self, buffered: &Array2d<T>, data: Seq<T>)
        requires
            self.wf(),
            buffered.wf(),
            data.len() == self.grid().height() * self.grid().width,
            forall|i: int, j: int|
                self.grid().holds(i, j) ==> #[trigger] self.grid().cell(i, j) == data[i
                    * self.grid().width + j],
            buffered.grid() == Grid::from_flat(self.grid().height(), self.grid().width, data),
        ensures
            self.grid() == buffered.grid(),
            (forall|i: int, j: int|
                self.grid().holds(i, j) ==> (#[trigger] self.grid().cell(i, j)).eq_spec(
                    &self.grid().cell(i, j),
                )) ==> self.eq_spec(buffered),
    {
        self.lemma_grid_wf();
        buffered.lemma_grid_wf();
        assert forall|i: int, j: int|
            0 <= i < self.grid().height() && 0 <= j < self.grid().width implies self.grid().rows[i][j]
            == buffered.grid().rows[i][j] by {
            assert(self.grid().holds(i, j));
            assert(self.grid().cell(i, j) == data[i * self.grid().width + j]);
        }
        self.grid().lemma_equal(buffered.grid());
        if forall|i: int, j: int|
            self.grid().holds(i, j) ==> (#[trigger] self.grid().cell(i, j)).eq_spec(
                &self.grid().cell(i, j),
            ) {
            self.lemma_same_grid_is_equal(buffered);
        }
    }

    /// Well-formed matrices with the same grid compare equal, provided every cell
    /// compares equal to itself.
    pub proof fn lemma_same_grid_is_equal(&self, other: &Array2d<T>)
        requires
            self.wf(),
            other.wf(),
            self.grid() == other.grid(),
            forall|i: int, j: int|
                self.grid().holds(i, j) ==> (#[trigger] self.grid().cell(i, j)).eq_spec(
                    &self.grid().cell(i, j),
                ),
        ensures
            self.eq_spec(other),
    {
        assert forall|i: int, j: int|
            0 <= i < self.spec_height() && 0 <= j < self.spec_width() implies cells_alike(
            #[trigger] self.peek(i, j),
            other.peek(i, j),
        ) by {
            self.lemma_peek(i, j);
            other.lemma_peek(i, j);
            assert(self.grid().holds(i, j));
            assert(self.grid().cell(i, j).eq_spec(&self.grid().cell(i, j)));
        }
        self.lemma_peek(0, 0);
        other.lemma_peek(0, 0);
    }
}

} // verus!

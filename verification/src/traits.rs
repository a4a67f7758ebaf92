//! What every matrix offers, whatever stores its cells.

use crate::axis::{identity, is_permutation, lemma_pending_set, pending, reaches};
use crate::grid::{Grid, Swap};
use vstd::prelude::*;

verus! {

/// A matrix addressed by zero-based `(row, column)` pairs.
///
/// `grid` is the matrix as its users see it; every method is stated over it.
/// A coordinate outside the grid is answered with `None` and changes nothing.
pub trait Matrix: Sized {
    type Item;

    /// The representation invariant of the implementing type.
    spec fn wf(&self) -> bool;

    /// The cells of the matrix in logical order.
    spec fn grid(&self) -> Grid<Self::Item>;

    /// A well-formed matrix has a well-formed grid whose sizes fit in `usize`.
    proof fn lemma_grid_wf(&self)
        requires
            self.wf(),
        ensures
            self.grid().wf(),
            self.grid().height() <= usize::MAX,
            self.grid().width <= usize::MAX,
    ;

    fn at(&self, row: usize, column: usize) -> (cell: Option<&Self::Item>)
        requires
            self.wf(),
        ensures
            cell is Some <==> self.grid().holds(row as int, column as int),
            cell matches Some(value) ==> *value == self.grid().cell(row as int, column as int),
    ;

    fn at_mut(&mut self, row: usize, column: usize) -> (cell: Option<&mut Self::Item>)
        requires
            old(self).wf(),
        ensures
            cell is Some <==> old(self).grid().holds(row as int, column as int),
            cell is None ==> final(self).wf() && final(self).grid() == old(self).grid(),
            cell matches Some(value) ==> {
                &&& *value == old(self).grid().cell(row as int, column as int)
                &&& final(self).wf()
                &&& final(self).grid() == old(self).grid().set(
                    row as int,
                    column as int,
                    *final(value),
                )
            },
    ;

    fn height(&self) -> (height: usize)
        requires
            self.wf(),
        ensures
            height == self.grid().height(),
    ;

    fn width(&self) -> (width: usize)
        requires
            self.wf(),
        ensures
            width == self.grid().width,
    ;

    /// Exchanges two rows; `None`, and no change, if either is not a row of the matrix.
    fn swap_rows(&mut self, a: usize, b: usize) -> (done: Option<()>)
        requires
            old(self).wf(),
        ensures
            final(self).wf(),
            done is Some <==> a < old(self).grid().height() && b < old(self).grid().height(),
            done is Some ==> final(self).grid() == old(self).grid().swap_rows(a as int, b as int),
            done is None ==> final(self).grid() == old(self).grid(),
            final(self).grid() == old(self).grid().swapped(Swap::Rows { a: a as int, b: b as int }),
    ;

    /// Exchanges two columns; `None`, and no change, if either is not a column of the matrix.
    fn swap_columns(&mut self, a: usize, b: usize) -> (done: Option<()>)
        requires
            old(self).wf(),
        ensures
            final(self).wf(),
            done is Some <==> a < old(self).grid().width && b < old(self).grid().width,
            done is Some ==> final(self).grid() == old(self).grid().swap_columns(
                a as int,
                b as int,
            ),
            done is None ==> final(self).grid() == old(self).grid(),
            final(self).grid() == old(self).grid().swapped(
                Swap::Columns { a: a as int, b: b as int },
            ),
    ;
}

/// A matrix that reads its stored cells through an order of its rows and an order
/// of its columns, and can move the cells so that the orders become the identity.
///
/// The logical cell `(i, j)` is the stored cell `(row_order[i], column_order[j])`.
pub trait Mapped: Sized {
    type Item;

    /// Everything about a value that writing to its cells leaves as it is.
    type Frame;

    /// The representation invariant of the implementing type.
    spec fn mapped_wf(&self) -> bool;

    spec fn frame(&self) -> Self::Frame;

    /// The cells in the order in which they are stored.
    spec fn stored(&self) -> Grid<Self::Item>;

    /// Logical row to stored row.
    spec fn row_order(&self) -> Seq<int>;

    /// Logical column to stored column.
    spec fn column_order(&self) -> Seq<int>;

    /// Both orders of a well-formed value are permutations, of as many positions as
    /// the stored grid has rows and columns.
    proof fn lemma_mapped_wf(&self)
        requires
            self.mapped_wf(),
        ensures
            is_permutation(self.row_order()),
            is_permutation(self.column_order()),
            self.stored().wf(),
            self.stored().height() == self.row_order().len(),
            self.stored().width == self.column_order().len(),
            self.row_order().len() <= usize::MAX,
            self.column_order().len() <= usize::MAX,
    ;

    /// The stored row of the logical row `index`, if there is such a row.
    fn row(&self, index: usize) -> (stored: Option<usize>)
        requires
            self.mapped_wf(),
        ensures
            index < self.row_order().len() ==> stored is Some && stored.unwrap()
                == self.row_order()[index as int],
            index >= self.row_order().len() ==> stored is None,
    ;

    /// The stored column of the logical column `index`, if there is such a column.
    fn column(&self, index: usize) -> (stored: Option<usize>)
        requires
            self.mapped_wf(),
        ensures
            index < self.column_order().len() ==> stored is Some && stored.unwrap()
                == self.column_order()[index as int],
            index >= self.column_order().len() ==> stored is None,
    ;

    /// The cell at the logical position `(row, column)`, which must exist.
    fn cell(&mut self, row: usize, column: usize) -> (cell: &mut Self::Item)
        requires
            old(self).mapped_wf(),
            row < old(self).row_order().len(),
            column < old(self).column_order().len(),
        ensures
            *cell == old(self).stored().cell(
                old(self).row_order()[row as int],
                old(self).column_order()[column as int],
            ),
            final(self).mapped_wf(),
            final(self).frame() == old(self).frame(),
            final(self).row_order() == old(self).row_order(),
            final(self).column_order() == old(self).column_order(),
            final(self).stored() == old(self).stored().set(
                old(self).row_order()[row as int],
                old(self).column_order()[column as int],
                *final(cell),
            ),
    ;

    /// Declares the rows to be stored in logical order. `height` is the number of rows.
    fn reset_rows(&mut self, height: usize)
        requires
            old(self).mapped_wf(),
            height == old(self).row_order().len(),
        ensures
            final(self).mapped_wf(),
            final(self).row_order() == identity(height as nat),
            final(self).column_order() == old(self).column_order(),
            final(self).stored() == old(self).stored(),
    ;

    /// Declares the columns to be stored in logical order. `width` is the number of columns.
    fn reset_columns(&mut self, width: usize)
        requires
            old(self).mapped_wf(),
            width == old(self).column_order().len(),
        ensures
            final(self).mapped_wf(),
            final(self).column_order() == identity(width as nat),
            final(self).row_order() == old(self).row_order(),
            final(self).stored() == old(self).stored(),
    ;

    /// Exchanges the cells at the logical columns `a` and `b` of the logical row `row`,
    /// by three swaps with `temp`, which ends as it began.
    fn exchange_in_row(&mut self, row: usize, a: usize, b: usize, temp: &mut Self::Item)
        requires
            old(self).mapped_wf(),
            row < old(self).row_order().len(),
            a < old(self).column_order().len(),
            b < old(self).column_order().len(),
        ensures
            final(self).mapped_wf(),
            final(self).frame() == old(self).frame(),
            final(self).row_order() == old(self).row_order(),
            final(self).column_order() == old(self).column_order(),
            *final(temp) == *old(temp),
            final(self).stored() == ({
                let r = old(self).row_order()[row as int];
                let ca = old(self).column_order()[a as int];
                let cb = old(self).column_order()[b as int];
                old(self).stored().set(r, ca, old(self).stored().cell(r, cb)).set(
                    r,
                    cb,
                    old(self).stored().cell(r, ca),
                )
            }),
    {
        proof {
            self.lemma_mapped_wf();
        }
        let ghost r = self.row_order()[row as int];
        let ghost ca = self.column_order()[a as int];
        let ghost cb = self.column_order()[b as int];
        let ghost target = self.stored().set(r, ca, self.stored().cell(r, cb)).set(
            r,
            cb,
            self.stored().cell(r, ca),
        );
        if a != b {
            core::mem::swap(self.cell(row, a), temp);
            core::mem::swap(self.cell(row, b), temp);
            core::mem::swap(self.cell(row, a), temp);
            proof {
                assert(ca != cb);
                assert(self.stored().rows[r] =~= target.rows[r]);
            }
        } else {
            proof {
                assert(self.stored().rows[r] =~= target.rows[r]);
            }
        }
        proof {
            assert(self.stored().rows =~= target.rows);
        }
    }

    /// Exchanges the cells at the logical rows `a` and `b` of the logical column
    /// `column`, by three swaps with `temp`, which ends as it began.
    fn exchange_in_column(&mut self, column: usize, a: usize, b: usize, temp: &mut Self::Item)
        requires
            old(self).mapped_wf(),
            column < old(self).column_order().len(),
            a < old(self).row_order().len(),
            b < old(self).row_order().len(),
        ensures
            final(self).mapped_wf(),
            final(self).frame() == old(self).frame(),
            final(self).row_order() == old(self).row_order(),
            final(self).column_order() == old(self).column_order(),
            *final(temp) == *old(temp),
            final(self).stored() == ({
                let c = old(self).column_order()[column as int];
                let ra = old(self).row_order()[a as int];
                let rb = old(self).row_order()[b as int];
                old(self).stored().set(ra, c, old(self).stored().cell(rb, c)).set(
                    rb,
                    c,
                    old(self).stored().cell(ra, c),
                )
            }),
    {
        proof {
            self.lemma_mapped_wf();
        }
        let ghost c = self.column_order()[column as int];
        let ghost ra = self.row_order()[a as int];
        let ghost rb = self.row_order()[b as int];
        let ghost target = self.stored().set(ra, c, self.stored().cell(rb, c)).set(
            rb,
            c,
            self.stored().cell(ra, c),
        );
        if a != b {
            core::mem::swap(self.cell(a, column), temp);
            core::mem::swap(self.cell(b, column), temp);
            core::mem::swap(self.cell(a, column), temp);
            proof {
                assert(ra != rb);
                assert(self.stored().rows[ra] =~= target.rows[ra]);
                assert(self.stored().rows[rb] =~= target.rows[rb]);
            }
        } else {
            proof {
                assert(self.stored().rows[ra] =~= target.rows[ra]);
            }
        }
        proof {
            assert(self.stored().rows =~= target.rows);
        }
    }

    /// Moves the cells of the logical row `row` so that each stored position `x` of
    /// that row holds what the stored position `column_order[x]` held.
    ///
    /// Every cycle of the column order is walked once, from its least member: the
    /// cell at the cursor is exchanged with the cell at the cursor's image until the
    /// image is the member the walk began at. `temp` is the scratch cell of the
    /// exchanges and ends as it began.
    fn sync_row(&mut self, row: usize, temp: &mut Self::Item)
        requires
            old(self).mapped_wf(),
            row < old(self).row_order().len(),
        ensures
            final(self).mapped_wf(),
            final(self).frame() == old(self).frame(),
            final(self).row_order() == old(self).row_order(),
            final(self).column_order() == old(self).column_order(),
            *final(temp) == *old(temp),
            final(self).stored() == old(self).stored().with_row_picked(
                old(self).row_order()[row as int],
                old(self).column_order(),
            ),
    {
        proof {
            self.lemma_mapped_wf();
        }
        let ghost first = self.stored();
        let ghost line = self.row_order()[row as int];
        let ghost order = self.column_order();
        let mut size: usize = 0;
        while self.column(size).is_some()
            invariant
                self.mapped_wf(),
                self.column_order() == order,
                order.len() <= usize::MAX,
                size <= order.len(),
            decreases order.len() - size,
        {
            size += 1;
        }
        let mut done: Vec<bool> = Vec::new();
        while done.len() < size
            invariant
                done@.len() <= size,
                forall|c: int| 0 <= c < done@.len() ==> !#[trigger] done@[c],
            decreases size - done@.len(),
        {
            done.push(false);
        }
        let mut start: usize = 0;
        while start < size
            invariant
                self.mapped_wf(),
                self.frame() == old(self).frame(),
                self.row_order() == old(self).row_order(),
                self.column_order() == order,
                *temp == *old(temp),
                is_permutation(order),
                is_permutation(self.row_order()),
                row < self.row_order().len(),
                line == self.row_order()[row as int],
                size == order.len(),
                done@.len() == size,
                start <= size,
                first.wf(),
                first.width == size,
                0 <= line < first.height(),
                self.stored().wf(),
                self.stored().width == first.width,
                self.stored().height() == first.height(),
                forall|r: int|
                    0 <= r < first.height() && r != line ==> #[trigger] self.stored().rows[r]
                        == first.rows[r],
                forall|c: int|
                    0 <= c < size && #[trigger] done@[c] ==> self.stored().rows[line][order[c]]
                        == first.rows[line][order[order[c]]],
                forall|c: int|
                    0 <= c < size && !#[trigger] done@[c] ==> self.stored().rows[line][order[c]]
                        == first.rows[line][order[c]],
                forall|c: int| 0 <= c < size && #[trigger] done@[order[c]] ==> done@[c],
                forall|c: int| 0 <= c < start ==> #[trigger] done@[c],
            decreases size - start,
        {
            if !done[start] {
                let mut cursor = start;
                let ghost mut prev: int = start as int;
                loop
                    invariant_except_break
                        !done@[cursor as int],
                        self.stored().rows[line][order[cursor as int]]
                            == first.rows[line][order[start as int]],
                        forall|c: int|
                            0 <= c < size && !#[trigger] done@[c] && c != cursor
                                ==> self.stored().rows[line][order[c]] == first.rows[line][order[c]],
                        forall|c: int|
                            0 <= c < size && #[trigger] done@[order[c]] ==> done@[c] || order[c]
                                == start,
                        cursor == start || (0 <= prev < size && done@[prev] && order[prev]
                            == cursor && done@[start as int]),
                    invariant
                        self.mapped_wf(),
                        self.frame() == old(self).frame(),
                        self.row_order() == old(self).row_order(),
                        self.column_order() == order,
                        *temp == *old(temp),
                        is_permutation(order),
                        is_permutation(self.row_order()),
                        row < self.row_order().len(),
                        line == self.row_order()[row as int],
                        size == order.len(),
                        done@.len() == size,
                        start < size,
                        cursor < size,
                        first.wf(),
                        first.width == size,
                        0 <= line < first.height(),
                        self.stored().wf(),
                        self.stored().width == first.width,
                        self.stored().height() == first.height(),
                        forall|r: int|
                            0 <= r < first.height() && r != line ==> #[trigger] self.stored().rows[r]
                                == first.rows[r],
                        forall|c: int|
                            0 <= c < size && #[trigger] done@[c] ==> self.stored().rows[line][order[c]]
                                == first.rows[line][order[order[c]]],
                        forall|c: int| 0 <= c < start ==> #[trigger] done@[c],
                    ensures
                        forall|c: int|
                            0 <= c < size && !#[trigger] done@[c] ==> self.stored().rows[line][order[c]]
                                == first.rows[line][order[c]],
                        forall|c: int| 0 <= c < size && #[trigger] done@[order[c]] ==> done@[c],
                        done@[start as int],
                    decreases pending(done@),
                {
                    let next = match self.column(cursor) {
                        Some(image) => image,
                        None => cursor,
                    };
                    proof {
                        lemma_pending_set(done@, cursor as int);
                    }
                    if next == start {
                        done[cursor] = true;
                        break ;
                    }
                    let ghost before = self.stored();
                    self.exchange_in_row(row, cursor, next, temp);
                    done[cursor] = true;
                    proof {
                        assert(!done@[next as int]);
                        assert(self.stored().rows[line] =~= before.rows[line].update(
                            order[cursor as int],
                            before.rows[line][order[next as int]],
                        ).update(order[next as int], before.rows[line][order[cursor as int]]));
                        assert forall|r: int|
                            0 <= r < first.height() && r != line implies #[trigger] self.stored().rows[r]
                            == first.rows[r] by {
                            assert(self.stored().rows[r] == before.rows[r]);
                        }
                        prev = cursor as int;
                    }
                    cursor = next;
                }
            }
            start += 1;
        }
        proof {
            let target = first.with_row_picked(line, order);
            assert forall|x: int| 0 <= x < size implies self.stored().rows[line][x]
                == target.rows[line][x] by {
                assert(reaches(order, x));
                let c = choose|c: int| 0 <= c < order.len() && #[trigger] order[c] == x;
                assert(done@[c]);
            }
            assert(self.stored().rows[line] =~= target.rows[line]);
            assert(self.stored().rows =~= target.rows);
        }
    }

    /// Moves the cells of the logical column `column` so that each stored position
    /// `x` of that column holds what the stored position `row_order[x]` held.
    ///
    /// The cycles of the row order are walked as `sync_row` walks those of the
    /// column order. `temp` is the scratch cell and ends as it began.
    fn sync_column(&mut self, column: usize, temp: &mut Self::Item)
        requires
            old(self).mapped_wf(),
            column < old(self).column_order().len(),
        ensures
            final(self).mapped_wf(),
            final(self).frame() == old(self).frame(),
            final(self).row_order() == old(self).row_order(),
            final(self).column_order() == old(self).column_order(),
            *final(temp) == *old(temp),
            final(self).stored() == old(self).stored().with_column_picked(
                old(self).column_order()[column as int],
                old(self).row_order(),
            ),
    {
        proof {
            self.lemma_mapped_wf();
        }
        let ghost first = self.stored();
        let ghost line = self.column_order()[column as int];
        let ghost order = self.row_order();
        let mut size: usize = 0;
        while self.row(size).is_some()
            invariant
                self.mapped_wf(),
                self.row_order() == order,
                order.len() <= usize::MAX,
                size <= order.len(),
            decreases order.len() - size,
        {
            size += 1;
        }
        let mut done: Vec<bool> = Vec::new();
        while done.len() < size
            invariant
                done@.len() <= size,
                forall|c: int| 0 <= c < done@.len() ==> !#[trigger] done@[c],
            decreases size - done@.len(),
        {
            done.push(false);
        }
        let mut start: usize = 0;
        while start < size
            invariant
                self.mapped_wf(),
                self.frame() == old(self).frame(),
                self.row_order() == order,
                self.column_order() == old(self).column_order(),
                *temp == *old(temp),
                is_permutation(order),
                is_permutation(self.column_order()),
                column < self.column_order().len(),
                line == self.column_order()[column as int],
                size == order.len(),
                done@.len() == size,
                start <= size,
                first.wf(),
                first.height() == size,
                0 <= line < first.width,
                self.stored().wf(),
                self.stored().width == first.width,
                self.stored().height() == first.height(),
                forall|r: int, x: int|
                    0 <= r < first.height() && 0 <= x < first.width && x != line
                        ==> #[trigger] self.stored().rows[r][x] == first.rows[r][x],
                forall|c: int|
                    0 <= c < size && #[trigger] done@[c] ==> self.stored().rows[order[c]][line]
                        == first.rows[order[order[c]]][line],
                forall|c: int|
                    0 <= c < size && !#[trigger] done@[c] ==> self.stored().rows[order[c]][line]
                        == first.rows[order[c]][line],
                forall|c: int| 0 <= c < size && #[trigger] done@[order[c]] ==> done@[c],
                forall|c: int| 0 <= c < start ==> #[trigger] done@[c],
            decreases size - start,
        {
            if !done[start] {
                let mut cursor = start;
                let ghost mut prev: int = start as int;
                loop
                    invariant_except_break
                        !done@[cursor as int],
                        self.stored().rows[order[cursor as int]][line]
                            == first.rows[order[start as int]][line],
                        forall|c: int|
                            0 <= c < size && !#[trigger] done@[c] && c != cursor
                                ==> self.stored().rows[order[c]][line] == first.rows[order[c]][line],
                        forall|c: int|
                            0 <= c < size && #[trigger] done@[order[c]] ==> done@[c] || order[c]
                                == start,
                        cursor == start || (0 <= prev < size && done@[prev] && order[prev]
                            == cursor && done@[start as int]),
                    invariant
                        self.mapped_wf(),
                        self.frame() == old(self).frame(),
                        self.row_order() == order,
                        self.column_order() == old(self).column_order(),
                        *temp == *old(temp),
                        is_permutation(order),
                        is_permutation(self.column_order()),
                        column < self.column_order().len(),
                        line == self.column_order()[column as int],
                        size == order.len(),
                        done@.len() == size,
                        start < size,
                        cursor < size,
                        first.wf(),
                        first.height() == size,
                        0 <= line < first.width,
                        self.stored().wf(),
                        self.stored().width == first.width,
                        self.stored().height() == first.height(),
                        forall|r: int, x: int|
                            0 <= r < first.height() && 0 <= x < first.width && x != line
                                ==> #[trigger] self.stored().rows[r][x] == first.rows[r][x],
                        forall|c: int|
                            0 <= c < size && #[trigger] done@[c] ==> self.stored().rows[order[c]][line]
                                == first.rows[order[order[c]]][line],
                        forall|c: int| 0 <= c < start ==> #[trigger] done@[c],
                    ensures
                        forall|c: int|
                            0 <= c < size && !#[trigger] done@[c] ==> self.stored().rows[order[c]][line]
                                == first.rows[order[c]][line],
                        forall|c: int| 0 <= c < size && #[trigger] done@[order[c]] ==> done@[c],
                        done@[start as int],
                    decreases pending(done@),
                {
                    let next = match self.row(cursor) {
                        Some(image) => image,
                        None => cursor,
                    };
                    proof {
                        lemma_pending_set(done@, cursor as int);
                    }
                    if next == start {
                        done[cursor] = true;
                        break ;
                    }
                    let ghost before = self.stored();
                    self.exchange_in_column(column, cursor, next, temp);
                    done[cursor] = true;
                    proof {
                        assert(!done@[next as int]);
                        let ra = order[cursor as int];
                        let rb = order[next as int];
                        assert(ra != rb);
                        assert(self.stored().rows[ra] =~= before.rows[ra].update(
                            line,
                            before.rows[rb][line],
                        ));
                        assert(self.stored().rows[rb] =~= before.rows[rb].update(
                            line,
                            before.rows[ra][line],
                        ));
                        assert forall|r: int|
                            0 <= r < first.height() && r != ra && r != rb implies self.stored().rows[r]
                            == before.rows[r] by {}
                        assert forall|r: int, x: int|
                            0 <= r < first.height() && 0 <= x < first.width && x
                                != line implies #[trigger] self.stored().rows[r][x]
                            == first.rows[r][x] by {
                            assert(self.stored().rows[r][x] == before.rows[r][x]);
                        }
                        assert forall|c: int|
                            0 <= c < size && !#[trigger] done@[c] && c != next implies self.stored().rows[order[c]][line]
                            == first.rows[order[c]][line] by {
                            assert(order[c] != ra);
                            assert(order[c] != rb);
                            assert(self.stored().rows[order[c]] == before.rows[order[c]]);
                        }
                        assert forall|c: int|
                            0 <= c < size && #[trigger] done@[c] implies self.stored().rows[order[c]][line]
                            == first.rows[order[order[c]]][line] by {
                            if c != cursor {
                                assert(order[c] != ra);
                                assert(order[c] != rb);
                                assert(self.stored().rows[order[c]] == before.rows[order[c]]);
                            }
                        }
                        prev = cursor as int;
                    }
                    cursor = next;
                }
            }
            start += 1;
        }
        proof {
            let target = first.with_column_picked(line, order);
            assert forall|x: int| 0 <= x < size implies self.stored().rows[x] =~= target.rows[x] by {
                assert(reaches(order, x));
                let c = choose|c: int| 0 <= c < order.len() && #[trigger] order[c] == x;
                assert(done@[c]);
                assert(self.stored().rows[x].len() == first.width);
                assert(first.rows[x].len() == first.width);
                assert forall|y: int| 0 <= y < first.width implies self.stored().rows[x][y]
                    == target.rows[x][y] by {
                    if y != line {
                        assert(self.stored().rows[x][y] == first.rows[x][y]);
                    }
                }
            }
            assert(self.stored().rows =~= target.rows);
        }
    }
}

/// Runs `sync_row` on every row: each stored row then holds, at every position `x`,
/// what it held at `column_order[x]`.
pub(crate) fn sync_each_row<P: Mapped>(p: &mut P, height: usize, temp: &mut P::Item)
    requires
        old(p).mapped_wf(),
        height == old(p).row_order().len(),
    ensures
        final(p).mapped_wf(),
        final(p).frame() == old(p).frame(),
        final(p).row_order() == old(p).row_order(),
        final(p).column_order() == old(p).column_order(),
        *final(temp) == *old(temp),
        final(p).stored() == old(p).stored().picked(
            identity(height as nat),
            old(p).column_order(),
        ),
{
    proof {
        p.lemma_mapped_wf();
    }
    let ghost first = p.stored();
    let ghost rows = p.row_order();
    let ghost columns = p.column_order();
    let mut row: usize = 0;
    while row < height
        invariant
            p.mapped_wf(),
            p.frame() == old(p).frame(),
            p.row_order() == rows,
            p.column_order() == columns,
            is_permutation(rows),
            is_permutation(columns),
            *temp == *old(temp),
            first.wf(),
            first.height() == rows.len(),
            first.width == columns.len(),
            height == rows.len(),
            row <= height,
            p.stored().wf(),
            p.stored().height() == first.height(),
            p.stored().width == first.width,
            forall|i: int, x: int|
                0 <= i < row && 0 <= x < columns.len() ==> #[trigger] p.stored().rows[rows[i]][x]
                    == first.rows[rows[i]][columns[x]],
            forall|i: int|
                row <= i < height ==> #[trigger] p.stored().rows[rows[i]] == first.rows[rows[i]],
        decreases height - row,
    {
        let ghost before = p.stored();
        p.sync_row(row, temp);
        proof {
            p.lemma_mapped_wf();
            assert forall|i: int, x: int|
                0 <= i < row + 1 && 0 <= x < columns.len() implies #[trigger] p.stored().rows[rows[i]][x]
                == first.rows[rows[i]][columns[x]] by {
                if i < row {
                    assert(rows[i] != rows[row as int]);
                    assert(p.stored().rows[rows[i]] == before.rows[rows[i]]);
                }
            }
            assert forall|i: int| row + 1 <= i < height implies #[trigger] p.stored().rows[rows[i]]
                == first.rows[rows[i]] by {
                assert(rows[i] != rows[row as int]);
                assert(p.stored().rows[rows[i]] == before.rows[rows[i]]);
            }
        }
        row += 1;
    }
    proof {
        let target = first.picked(identity(height as nat), columns);
        assert forall|r: int, x: int|
            0 <= r < target.height() && 0 <= x < target.width implies p.stored().rows[r][x]
            == target.rows[r][x] by {
            assert(reaches(rows, r));
            let i = choose|i: int| 0 <= i < rows.len() && #[trigger] rows[i] == r;
            assert(p.stored().rows[rows[i]][x] == first.rows[rows[i]][columns[x]]);
        }
        p.stored().lemma_equal(target);
    }
}

/// Runs `sync_column` on every column: each stored column then holds, at every
/// position `x`, what it held at `row_order[x]`.
pub(crate) fn sync_each_column<P: Mapped>(p: &mut P, width: usize, temp: &mut P::Item)
    requires
        old(p).mapped_wf(),
        width == old(p).column_order().len(),
    ensures
        final(p).mapped_wf(),
        final(p).frame() == old(p).frame(),
        final(p).row_order() == old(p).row_order(),
        final(p).column_order() == old(p).column_order(),
        *final(temp) == *old(temp),
        final(p).stored() == old(p).stored().picked(old(p).row_order(), identity(width as nat)),
{
    proof {
        p.lemma_mapped_wf();
    }
    let ghost first = p.stored();
    let ghost rows = p.row_order();
    let ghost columns = p.column_order();
    let mut column: usize = 0;
    while column < width
        invariant
            p.mapped_wf(),
            p.frame() == old(p).frame(),
            p.row_order() == rows,
            p.column_order() == columns,
            is_permutation(rows),
            is_permutation(columns),
            *temp == *old(temp),
            first.wf(),
            first.height() == rows.len(),
            first.width == columns.len(),
            width == columns.len(),
            column <= width,
            p.stored().wf(),
            p.stored().height() == first.height(),
            p.stored().width == first.width,
            forall|r: int, j: int|
                0 <= r < rows.len() && 0 <= j < column ==> #[trigger] p.stored().rows[r][columns[j]]
                    == first.rows[rows[r]][columns[j]],
            forall|r: int, j: int|
                0 <= r < rows.len() && column <= j < width
                    ==> #[trigger] p.stored().rows[r][columns[j]] == first.rows[r][columns[j]],
        decreases width - column,
    {
        let ghost before = p.stored();
        p.sync_column(column, temp);
        proof {
            p.lemma_mapped_wf();
            assert forall|r: int, j: int|
                0 <= r < rows.len() && 0 <= j < column + 1 implies #[trigger] p.stored().rows[r][columns[j]]
                == first.rows[rows[r]][columns[j]] by {
                if j < column {
                    assert(columns[j] != columns[column as int]);
                    assert(p.stored().rows[r][columns[j]] == before.rows[r][columns[j]]);
                }
            }
            assert forall|r: int, j: int|
                0 <= r < rows.len() && column + 1 <= j < width implies #[trigger] p.stored().rows[r][columns[j]]
                == first.rows[r][columns[j]] by {
                assert(columns[j] != columns[column as int]);
                assert(p.stored().rows[r][columns[j]] == before.rows[r][columns[j]]);
            }
        }
        column += 1;
    }
    proof {
        let target = first.picked(rows, identity(width as nat));
        assert forall|r: int, x: int|
            0 <= r < target.height() && 0 <= x < target.width implies p.stored().rows[r][x]
            == target.rows[r][x] by {
            assert(reaches(columns, x));
            let j = choose|j: int| 0 <= j < columns.len() && #[trigger] columns[j] == x;
            assert(p.stored().rows[r][columns[j]] == first.rows[rows[r]][columns[j]]);
        }
        p.stored().lemma_equal(target);
    }
}

} // verus!

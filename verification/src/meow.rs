//! Several matrices of one height, set side by side and read as one.

use crate::array2d::Array2d;
use crate::axis::{
    axis_extend, axis_lookup, axis_order, axis_size, axis_swap, extended, identity,
    is_permutation, lemma_axis_size, lemma_exchanged_is_permutation,
    lemma_extended_is_permutation, lemma_identity_is_permutation,
};
use crate::grid::Grid;
use crate::traits::{sync_each_column, sync_each_row, Mapped, Matrix};
use either::Either;
use vstd::prelude::*;

verus! {

/// The blocks of a concatenation, left to right, with an order of the rows and an
/// order of the columns of the whole. A swap touches only those two orders.
#[derive(Clone)]
pub struct Meow<T> {
    rows: Either<usize, Vec<usize>>,
    columns: Either<usize, Vec<usize>>,
    concat: Vec<T>,
}

/// The summed width of the first `count` blocks.
pub open spec fn widths<M: Matrix>(blocks: Seq<M>, count: int) -> int
    decreases count,
{
    if count <= 0 {
        0
    } else {
        widths(blocks, count - 1) + blocks[count - 1].grid().width
    }
}

/// The first `count` blocks side by side, as a grid of `height` rows.
pub open spec fn joined<M: Matrix>(blocks: Seq<M>, height: nat, count: int) -> Grid<M::Item>
    decreases count,
{
    if count <= 0 {
        Grid { width: 0, rows: Seq::new(height, |i: int| Seq::empty()) }
    } else {
        joined(blocks, height, count - 1).beside(blocks[count - 1].grid())
    }
}

/// Every block is well-formed and has `height` rows.
pub open spec fn blocks_fit<M: Matrix>(blocks: Seq<M>, height: nat) -> bool {
    forall|k: int|
        0 <= k < blocks.len() ==> (#[trigger] blocks[k]).wf() && blocks[k].grid().height()
            == height
}

/// The widths of the blocks, left to right.
pub open spec fn outline<M: Matrix>(blocks: Seq<M>) -> Seq<nat> {
    Seq::new(blocks.len(), |k: int| blocks[k].grid().width)
}

pub proof fn lemma_widths_monotone<M: Matrix>(blocks: Seq<M>, low: int, high: int)
    requires
        0 <= low <= high,
    ensures
        0 <= widths(blocks, low) <= widths(blocks, high),
    decreases high,
{
    if low < high {
        lemma_widths_monotone(blocks, low, high - 1);
    } else if low > 0 {
        lemma_widths_monotone(blocks, low - 1, low - 1);
    }
}

/// Blocks with the same outline have the same summed widths.
pub proof fn lemma_widths_by_outline<M: Matrix>(a: Seq<M>, b: Seq<M>, count: int)
    requires
        outline(a) == outline(b),
        0 <= count <= a.len(),
    ensures
        widths(a, count) == widths(b, count),
    decreases count,
{
    if count > 0 {
        lemma_widths_by_outline(a, b, count - 1);
        assert(outline(a).len() == a.len());
        assert(outline(b).len() == b.len());
        assert(outline(a)[count - 1] == a[count - 1].grid().width);
        assert(outline(b)[count - 1] == b[count - 1].grid().width);
    }
}

pub proof fn lemma_joined_shape<M: Matrix>(blocks: Seq<M>, height: nat, count: int)
    requires
        blocks_fit(blocks, height),
        0 <= count <= blocks.len(),
    ensures
        joined(blocks, height, count).wf(),
        joined(blocks, height, count).height() == height,
        joined(blocks, height, count).width == widths(blocks, count),
    decreases count,
{
    if count > 0 {
        lemma_joined_shape(blocks, height, count - 1);
        blocks[count - 1].lemma_grid_wf();
    }
}

/// A cell of the joined grid is a cell of the block whose columns cover it.
pub proof fn lemma_joined_cell<M: Matrix>(
    blocks: Seq<M>,
    height: nat,
    count: int,
    k: int,
    i: int,
    x: int,
)
    requires
        blocks_fit(blocks, height),
        0 <= k < count <= blocks.len(),
        0 <= i < height,
        widths(blocks, k) <= x < widths(blocks, k + 1),
    ensures
        joined(blocks, height, count).rows[i][x] == blocks[k].grid().rows[i][x - widths(
            blocks,
            k,
        )],
    decreases count,
{
    lemma_joined_shape(blocks, height, count - 1);
    blocks[count - 1].lemma_grid_wf();
    lemma_joined_shape(blocks, height, count);
    lemma_widths_monotone(blocks, k, k);
    let left = joined(blocks, height, count - 1);
    let right = blocks[count - 1].grid();
    let whole = joined(blocks, height, count);
    assert(whole == left.beside(right));
    assert(left.rows.len() == height);
    assert(right.rows.len() == height);
    assert(left.rows[i].len() == left.width);
    assert(right.rows[i].len() == right.width);
    assert(whole.rows[i] == left.rows[i] + right.rows[i]);
    if k < count - 1 {
        lemma_joined_cell(blocks, height, count - 1, k, i, x);
        lemma_widths_monotone(blocks, k + 1, count - 1);
    }
}

/// Blocks that agree up to `count` give the same summed width and the same joined grid.
pub proof fn lemma_joined_prefix<M: Matrix>(a: Seq<M>, b: Seq<M>, height: nat, count: int)
    requires
        0 <= count <= a.len(),
        count <= b.len(),
        forall|k: int| 0 <= k < count ==> a[k] == b[k],
    ensures
        widths(a, count) == widths(b, count),
        joined(a, height, count) == joined(b, height, count),
    decreases count,
{
    if count > 0 {
        lemma_joined_prefix(a, b, height, count - 1);
    }
}

/// With block `index` taken out, the summed widths behind it shrink by its width.
pub proof fn lemma_widths_remove<M: Matrix>(blocks: Seq<M>, index: int, count: int)
    requires
        0 <= index < blocks.len(),
        0 <= count < blocks.len(),
    ensures
        count <= index ==> widths(blocks.remove(index), count) == widths(blocks, count),
        count > index ==> widths(blocks.remove(index), count) == widths(blocks, count + 1)
            - blocks[index].grid().width,
    decreases count,
{
    if count > 0 {
        lemma_widths_remove(blocks, index, count - 1);
        if count - 1 < index {
            assert(blocks.remove(index)[count - 1] == blocks[count - 1]);
        } else {
            assert(blocks.remove(index)[count - 1] == blocks[count]);
            assert(widths(blocks, count + 1) == widths(blocks, count) + blocks[count].grid().width);
            assert(widths(blocks, count) == widths(blocks, count - 1) + blocks[count
                - 1].grid().width);
        }
    }
}

/// Taking block `index` out of the blocks takes its columns out of the joined grid:
/// what stays is the columns before them beside the columns behind them, and the
/// block itself holds the columns between.
pub proof fn lemma_joined_remove<M: Matrix>(blocks: Seq<M>, height: nat, index: int)
    requires
        blocks_fit(blocks, height),
        0 <= index < blocks.len(),
    ensures
        blocks_fit(blocks.remove(index), height),
        0 <= widths(blocks, index) <= widths(blocks, index + 1) <= widths(
            blocks,
            blocks.len() as int,
        ),
        widths(blocks.remove(index), blocks.len() - 1) == widths(blocks, blocks.len() as int)
            - blocks[index].grid().width,
        joined(blocks.remove(index), height, blocks.len() - 1) == joined(
            blocks,
            height,
            blocks.len() as int,
        ).columns(0, widths(blocks, index)).beside(
            joined(blocks, height, blocks.len() as int).columns(
                widths(blocks, index + 1),
                widths(blocks, blocks.len() as int),
            ),
        ),
        blocks[index].grid() == joined(blocks, height, blocks.len() as int).columns(
            widths(blocks, index),
            widths(blocks, index + 1),
        ),
{
    let after = blocks.remove(index);
    let count = after.len() as int;
    let from = widths(blocks, index);
    let upto = widths(blocks, index + 1);
    let width = widths(blocks, count + 1);
    let whole = joined(blocks, height, count + 1);
    lemma_widths_monotone(blocks, index, index + 1);
    lemma_widths_monotone(blocks, index + 1, count + 1);
    assert(blocks_fit(after, height)) by {
        assert forall|k: int| 0 <= k < after.len() implies (#[trigger] after[k]).wf()
            && after[k].grid().height() == height by {
            if k < index {
                assert(after[k] == blocks[k]);
            } else {
                assert(after[k] == blocks[k + 1]);
            }
        }
    }
    lemma_widths_removed_all(blocks, index);
    lemma_joined_shape(after, height, count);
    lemma_joined_shape(blocks, height, count + 1);
    blocks[index].lemma_grid_wf();
    let kept = whole.columns(0, from).beside(whole.columns(upto, width));
    assert(kept.wf()) by {
        assert forall|i: int| 0 <= i < kept.rows.len() implies (#[trigger] kept.rows[i]).len()
            == kept.width by {
            assert(whole.rows[i].len() == width);
        }
    }
    assert forall|i: int, x: int|
        0 <= i < height && 0 <= x < widths(after, count) implies joined(
        after,
        height,
        count,
    ).rows[i][x] == kept.rows[i][x] by {
        lemma_removed_cell(blocks, height, index, i, x);
        assert(whole.rows[i].len() == width);
    }
    joined(after, height, count).lemma_equal(kept);
    let covered = whole.columns(from, upto);
    assert(covered.wf()) by {
        assert forall|i: int| 0 <= i < covered.rows.len() implies (#[trigger] covered.rows[i]).len()
            == covered.width by {
            assert(whole.rows[i].len() == width);
        }
    }
    assert forall|i: int, x: int|
        0 <= i < height && 0 <= x < upto - from implies blocks[index].grid().rows[i][x]
        == covered.rows[i][x] by {
        assert(whole.rows[i].len() == width);
        lemma_joined_cell(blocks, height, count + 1, index, i, from + x);
    }
    blocks[index].grid().lemma_equal(covered);
}

/// With block `index` taken out, all the blocks together are narrower by its width.
pub proof fn lemma_widths_removed_all<M: Matrix>(blocks: Seq<M>, index: int)
    requires
        0 <= index < blocks.len(),
    ensures
        widths(blocks.remove(index), blocks.len() - 1) == widths(blocks, blocks.len() as int)
            - blocks[index].grid().width,
{
    let count = blocks.len() - 1;
    let after = blocks.remove(index);
    assert(widths(blocks, count + 1) == widths(blocks, count) + blocks[count].grid().width);
    if count > 0 {
        lemma_widths_remove(blocks, index, count - 1);
        assert(widths(after, count) == widths(after, count - 1) + after[count - 1].grid().width);
        assert(widths(blocks, count) == widths(blocks, count - 1) + blocks[count
            - 1].grid().width);
        if count - 1 < index {
            assert(after[count - 1] == blocks[count - 1]);
        } else {
            assert(after[count - 1] == blocks[count]);
        }
    } else {
        assert(widths(blocks, 0) == 0);
        assert(widths(after, 0) == 0);
    }
}

/// A cell of the blocks joined without block `index` is the cell of all the blocks
/// joined that stands in the same column, where that lies before the block, and as
/// many columns further right as the block is wide, where it does not.
pub proof fn lemma_removed_cell<M: Matrix>(
    blocks: Seq<M>,
    height: nat,
    index: int,
    i: int,
    x: int,
)
    requires
        blocks_fit(blocks, height),
        blocks_fit(blocks.remove(index), height),
        0 <= index < blocks.len(),
        0 <= i < height,
        0 <= x < widths(blocks.remove(index), blocks.len() - 1),
    ensures
        joined(blocks.remove(index), height, blocks.len() - 1).rows[i][x] == joined(
            blocks,
            height,
            blocks.len() as int,
        ).rows[i][if x < widths(blocks, index) {
            x
        } else {
            x + blocks[index].grid().width
        }],
{
    let after = blocks.remove(index);
    let count = after.len() as int;
    lemma_block_of(after, count, x);
    let k = block_of(after, count, x);
    lemma_widths_remove(blocks, index, k);
    if k + 1 < count {
        lemma_widths_remove(blocks, index, k + 1);
    } else {
        lemma_widths_removed_all(blocks, index);
    }
    lemma_joined_cell(after, height, count, k, i, x);
    blocks[index].lemma_grid_wf();
    if k < index {
        assert(after[k] == blocks[k]);
        lemma_widths_monotone(blocks, k + 1, index);
        lemma_joined_cell(blocks, height, count + 1, k, i, x);
    } else {
        assert(after[k] == blocks[k + 1]);
        lemma_widths_monotone(blocks, index + 1, k + 1);
        lemma_widths_monotone(blocks, index, index + 1);
        lemma_joined_cell(blocks, height, count + 1, k + 1, i, x + blocks[index].grid().width);
    }
}

/// The block that holds the column `x`, for the proofs: the `k` with
/// `widths(k) <= x < widths(k + 1)`.
pub open spec fn block_of<M: Matrix>(blocks: Seq<M>, count: int, x: int) -> int
    decreases count,
{
    if count <= 1 {
        0
    } else if widths(blocks, count - 1) <= x {
        count - 1
    } else {
        block_of(blocks, count - 1, x)
    }
}

pub proof fn lemma_block_of<M: Matrix>(blocks: Seq<M>, count: int, x: int)
    requires
        0 <= x < widths(blocks, count),
        0 < count,
    ensures
        0 <= block_of(blocks, count, x) < count,
        widths(blocks, block_of(blocks, count, x)) <= x < widths(
            blocks,
            block_of(blocks, count, x) + 1,
        ),
    decreases count,
{
    if count > 1 && widths(blocks, count - 1) > x {
        lemma_block_of(blocks, count - 1, x);
    }
}

/// Replacing one cell of one block replaces one cell of the joined grid.
pub proof fn lemma_joined_write<M: Matrix>(
    blocks: Seq<M>,
    height: nat,
    k: int,
    block: M,
    i: int,
    c: int,
    value: M::Item,
)
    requires
        blocks_fit(blocks, height),
        0 <= k < blocks.len(),
        blocks[k].grid().holds(i, c),
        block.wf(),
        block.grid() == blocks[k].grid().set(i, c, value),
    ensures
        blocks_fit(blocks.update(k, block), height),
        outline(blocks.update(k, block)) == outline(blocks),
        joined(blocks.update(k, block), height, blocks.len() as int) == joined(
            blocks,
            height,
            blocks.len() as int,
        ).set(i, widths(blocks, k) + c, value),
{
    let after = blocks.update(k, block);
    let count = blocks.len() as int;
    assert(outline(after) =~= outline(blocks));
    assert(blocks_fit(after, height));
    let target = joined(blocks, height, count).set(i, widths(blocks, k) + c, value);
    lemma_joined_shape(blocks, height, count);
    lemma_joined_shape(after, height, count);
    lemma_widths_by_outline(after, blocks, count);
    lemma_widths_monotone(blocks, k + 1, count);
    blocks[k].lemma_grid_wf();
    let whole = joined(blocks, height, count);
    lemma_widths_monotone(blocks, k, k);
    assert(whole.rows[i].len() == whole.width);
    assert(target.wf()) by {
        assert forall|r: int| 0 <= r < target.rows.len() implies (#[trigger] target.rows[r]).len()
            == target.width by {
            assert(whole.rows[r].len() == whole.width);
        }
    }
    assert forall|r: int, x: int|
        0 <= r < target.height() && 0 <= x < target.width implies joined(
        after,
        height,
        count,
    ).rows[r][x] == target.rows[r][x] by {
        lemma_block_of(blocks, count, x);
        let b = block_of(blocks, count, x);
        lemma_widths_by_outline(after, blocks, b);
        lemma_widths_by_outline(after, blocks, b + 1);
        lemma_widths_by_outline(after, blocks, k);
        lemma_joined_cell(blocks, height, count, b, r, x);
        lemma_joined_cell(after, height, count, b, r, x);
        lemma_joined_cell(blocks, height, count, k, i, widths(blocks, k) + c);
        if b < k {
            lemma_widths_monotone(blocks, b + 1, k);
        } else if b > k {
            lemma_widths_monotone(blocks, k + 1, b);
        } else {
            assert(after[k] == block);
        }
    }
    joined(after, height, count).lemma_equal(target);
}

impl<M: Matrix> Meow<M> {
    /// The blocks, left to right.
    pub closed spec fn blocks(&self) -> Seq<M> {
        self.concat@
    }

    /// The summed width of the blocks left of block `index`.
    pub open spec fn offset(&self, index: int) -> int {
        widths(self.blocks(), index)
    }

    /// Takes one matrix as the only block.
    pub fn from(value: M) -> (made: Meow<M>)
        requires
            value.wf(),
        ensures
            made.wf(),
            made.grid() == value.grid(),
            made.blocks() == seq![value],
            made.row_order() == identity(value.grid().height()),
            made.column_order() == identity(value.grid().width),
    {
        let height = value.height();
        let width = value.width();
        let mut concat: Vec<M> = Vec::new();
        concat.push(value);
        let made = Meow { rows: Either::Left(height), columns: Either::Left(width), concat };
        proof {
            value.lemma_grid_wf();
            lemma_identity_is_permutation(height as nat);
            lemma_identity_is_permutation(width as nat);
            assert(made.concat@ =~= seq![value]);
            assert(joined(made.concat@, height as nat, 0).width == 0);
            assert(widths(made.concat@, 0) == 0);
            assert(widths(made.concat@, 1) == width);
            lemma_joined_shape(made.concat@, height as nat, 1);
            assert forall|i: int, j: int|
                0 <= i < height && 0 <= j < width implies made.grid().rows[i][j]
                == value.grid().rows[i][j] by {
                lemma_joined_cell(made.concat@, height as nat, 1, 0, i, j);
            }
            made.grid().lemma_equal(value.grid());
        }
        made
    }

    /// Appends a block on the right, or hands it back if its height is not the height
    /// of the matrix.
    ///
    /// The new columns come last in the column order and are stored where they
    /// stand. The rows of the new block are read through the row order like those of
    /// every other block.
    pub fn eat(&mut self, snack: M) -> (fed: Result<(), M>)
        requires
            old(self).wf(),
            snack.wf(),
            old(self).grid().width + snack.grid().width <= usize::MAX,
        ensures
            final(self).wf(),
            fed is Ok <==> old(self).grid().height() == snack.grid().height(),
            fed is Ok ==> {
                &&& final(self).blocks() == old(self).blocks().push(snack)
                &&& final(self).row_order() == old(self).row_order()
                &&& final(self).column_order() == extended(
                    old(self).column_order(),
                    snack.grid().width,
                )
                &&& final(self).grid() == old(self).grid().beside(
                    snack.grid().picked(old(self).row_order(), identity(snack.grid().width)),
                )
            },
            fed matches Err(back) ==> back == snack && *final(self) == *old(self),
    {
        if self.height() == snack.height() {
            let extra = snack.width();
            proof {
                snack.lemma_grid_wf();
                lemma_extended_is_permutation(axis_order(self.columns), extra as nat);
            }
            axis_extend(&mut self.columns, extra);
            self.concat.push(snack);
            proof {
                let before = old(self).concat@;
                let after = self.concat@;
                let height = axis_order(self.rows).len();
                let count = before.len() as int;
                lemma_joined_prefix(after, before, height, count);
                lemma_joined_shape(before, height, count);
                assert(blocks_fit(after, height));
                lemma_joined_shape(after, height, count + 1);
                let rows = axis_order(self.rows);
                let was = axis_order(old(self).columns);
                let target = old(self).grid().beside(
                    snack.grid().picked(rows, identity(extra as nat)),
                );
                let whole = joined(after, height, count + 1);
                let left = joined(before, height, count);
                assert(whole == left.beside(snack.grid()));
                assert forall|i: int, j: int|
                    0 <= i < target.height() && 0 <= j < target.width implies self.grid().rows[i][j]
                    == target.rows[i][j] by {
                    assert(left.rows[rows[i]].len() == left.width);
                    assert(snack.grid().rows[rows[i]].len() == extra);
                    assert(old(self).grid().rows[i].len() == was.len());
                    if j < was.len() {
                        assert(axis_order(self.columns)[j] == was[j]);
                    } else {
                        assert(axis_order(self.columns)[j] == j);
                    }
                }
                assert(target.wf()) by {
                    assert forall|r: int| 0 <= r < target.rows.len() implies (
                    #[trigger] target.rows[r]).len() == target.width by {
                        assert(old(self).grid().rows[r].len() == was.len());
                    }
                }
                self.grid().lemma_equal(target);
            }
            Ok(())
        } else {
            Err(snack)
        }
    }

    /// The widths of the blocks, left to right.
    pub fn widths(&self) -> (all: Vec<usize>)
        requires
            self.wf(),
        ensures
            all@.len() == self.blocks().len(),
            forall|k: int|
                0 <= k < all@.len() ==> #[trigger] all@[k] == self.blocks()[k].grid().width,
    {
        let mut all: Vec<usize> = Vec::new();
        let mut k: usize = 0;
        while k < self.concat.len()
            invariant
                self.wf(),
                k <= self.concat@.len(),
                all@.len() == k,
                forall|i: int| 0 <= i < k ==> #[trigger] all@[i] == self.concat@[i].grid().width,
            decreases self.concat@.len() - k,
        {
            all.push(self.concat[k].width());
            k += 1;
        }
        all
    }

    /// Finds the block that holds the stored column `column`, and the column within it.
    fn locate(&self, column: usize) -> (found: (usize, usize))
        requires
            self.wf(),
            column < self.column_order().len(),
        ensures
            found.0 < self.blocks().len(),
            found.1 < self.blocks()[found.0 as int].grid().width,
            self.offset(found.0 as int) + found.1 == column,
    {
        let mut col = column;
        let mut index: usize = 0;
        proof {
            lemma_widths_monotone(self.concat@, 0, self.concat@.len() as int);
        }
        while index < self.concat.len()
            invariant
                self.wf(),
                index <= self.concat@.len(),
                widths(self.concat@, index as int) + col == column,
                column < widths(self.concat@, self.concat@.len() as int),
                index == self.concat@.len() ==> false,
            ensures
                index < self.concat@.len(),
                col < self.concat@[index as int].grid().width,
                widths(self.concat@, index as int) + col == column,
            decreases self.concat@.len() - index,
        {
            let width = self.concat[index].width();
            if col >= width {
                col -= width;
                index += 1;
                proof {
                    lemma_widths_monotone(self.concat@, index as int, self.concat@.len() as int);
                }
            } else {
                break ;
            }
        }
        (index, col)
    }
}

impl<M: Matrix> Matrix for Meow<M> {
    type Item = M::Item;

    closed spec fn wf(&self) -> bool {
        &&& is_permutation(axis_order(self.rows))
        &&& is_permutation(axis_order(self.columns))
        &&& blocks_fit(self.concat@, axis_order(self.rows).len())
        &&& axis_order(self.columns).len() == widths(self.concat@, self.concat@.len() as int)
    }

    closed spec fn grid(&self) -> Grid<M::Item> {
        joined(self.concat@, axis_order(self.rows).len(), self.concat@.len() as int).picked(
            axis_order(self.rows),
            axis_order(self.columns),
        )
    }

    proof fn lemma_grid_wf(&self) {
        lemma_axis_size(self.rows);
        lemma_axis_size(self.columns);
    }

    fn at(&self, row: usize, column: usize) -> (cell: Option<&M::Item>) {
        let row = axis_lookup(&self.rows, row)?;
        let col = axis_lookup(&self.columns, column)?;
        let (index, col) = self.locate(col);
        proof {
            lemma_joined_cell(
                self.concat@,
                axis_order(self.rows).len(),
                self.concat@.len() as int,
                index as int,
                row as int,
                widths(self.concat@, index as int) + col,
            );
        }
        self.concat[index].at(row, col)
    }

    fn at_mut(&mut self, row: usize, column: usize) -> (cell: Option<&mut M::Item>)
        ensures
            final(self).row_order() == old(self).row_order(),
            final(self).column_order() == old(self).column_order(),
            final(self).frame() == old(self).frame(),
            cell is None ==> *final(self) == *old(self),
            cell matches Some(value) ==> final(self).stored() == old(self).stored().set(
                old(self).row_order()[row as int],
                old(self).column_order()[column as int],
                *final(value),
            ),
    {
        let stored_row = match axis_lookup(&self.rows, row) {
            Some(r) => r,
            None => { return None; },
        };
        let stored_column = match axis_lookup(&self.columns, column) {
            Some(c) => c,
            None => { return None; },
        };
        let (index, col) = self.locate(stored_column);
        proof {
            let before = *self;
            let block = before.concat@[index as int];
            lemma_joined_cell(
                self.concat@,
                axis_order(self.rows).len(),
                self.concat@.len() as int,
                index as int,
                stored_row as int,
                stored_column as int,
            );
            assert(before.grid().cell(row as int, column as int) == block.grid().cell(
                stored_row as int,
                col as int,
            ));
            assert forall|after: Meow<M>, next: M, value: M::Item|
                #![trigger after.grid(), before.concat@.update(index as int, next), block.grid().set(stored_row as int, col as int, value)]
                after.rows == before.rows && after.columns == before.columns && after.concat@
                    == before.concat@.update(index as int, next) && next.wf() && next.grid()
                    == block.grid().set(
                    stored_row as int,
                    col as int,
                    value,
                ) implies after.wf() && after.grid() == before.grid().set(
                row as int,
                column as int,
                value,
            ) by {
                before.lemma_write(after, row as int, column as int, index as int, col as int, next, value);
            }
            assert forall|after: Meow<M>, next: M, value: M::Item|
                #![trigger after.stored(), before.concat@.update(index as int, next), block.grid().set(stored_row as int, col as int, value)]
                after.rows == before.rows && after.columns == before.columns && after.concat@
                    == before.concat@.update(index as int, next) && next.wf() && next.grid()
                    == block.grid().set(
                    stored_row as int,
                    col as int,
                    value,
                ) implies after.stored() == before.stored().set(
                stored_row as int,
                stored_column as int,
                value,
            ) by {
                before.lemma_write(after, row as int, column as int, index as int, col as int, next, value);
            }
            assert forall|after: Meow<M>, next: M, value: M::Item|
                #![trigger after.wf(), before.concat@.update(index as int, next), block.grid().set(stored_row as int, col as int, value)]
                after.rows == before.rows && after.columns == before.columns && after.concat@
                    == before.concat@.update(index as int, next) && next.wf() && next.grid()
                    == block.grid().set(
                    stored_row as int,
                    col as int,
                    value,
                ) implies after.wf() by {
                before.lemma_write(after, row as int, column as int, index as int, col as int, next, value);
            }
            assert forall|after: Meow<M>, next: M, value: M::Item|
                #![trigger after.frame(), before.concat@.update(index as int, next), block.grid().set(stored_row as int, col as int, value)]
                after.rows == before.rows && after.columns == before.columns && after.concat@
                    == before.concat@.update(index as int, next) && next.wf() && next.grid()
                    == block.grid().set(
                    stored_row as int,
                    col as int,
                    value,
                ) implies after.frame() == before.frame() by {
                before.lemma_write(after, row as int, column as int, index as int, col as int, next, value);
            }
        }
        let block = &mut self.concat[index];
        block.at_mut(stored_row, col)
    }

    fn height(&self) -> (height: usize) {
        axis_size(&self.rows)
    }

    fn width(&self) -> (width: usize) {
        axis_size(&self.columns)
    }

    fn swap_rows(&mut self, a: usize, b: usize) -> (done: Option<()>)
        ensures
            final(self).blocks() == old(self).blocks(),
            done is None ==> *final(self) == *old(self),
    {
        let done = axis_swap(&mut self.rows, a, b);
        proof {
            if done is Some {
                lemma_exchanged_is_permutation(axis_order(old(self).rows), a as int, b as int);
                let target = old(self).grid().swap_rows(a as int, b as int);
                assert forall|i: int| 0 <= i < target.height() implies self.grid().rows[i]
                    =~= target.rows[i] by {}
                assert(self.grid().rows =~= target.rows);
            }
        }
        done
    }

    fn swap_columns(&mut self, a: usize, b: usize) -> (done: Option<()>)
        ensures
            final(self).blocks() == old(self).blocks(),
            done is None ==> *final(self) == *old(self),
    {
        let done = axis_swap(&mut self.columns, a, b);
        proof {
            if done is Some {
                lemma_exchanged_is_permutation(axis_order(old(self).columns), a as int, b as int);
                let target = old(self).grid().swap_columns(a as int, b as int);
                assert forall|i: int| 0 <= i < target.height() implies self.grid().rows[i]
                    =~= target.rows[i] by {}
                assert(self.grid().rows =~= target.rows);
            }
        }
        done
    }
}

impl<M: Matrix> Meow<M> {
    /// Writing one cell of one block changes the one logical cell that is read from it.
    proof fn lemma_write(
        self,
        after: Meow<M>,
        row: int,
        column: int,
        index: int,
        local: int,
        next: M,
        value: M::Item,
    )
        requires
            self.wf(),
            self.grid().holds(row, column),
            0 <= index < self.concat@.len(),
            0 <= local < self.concat@[index].grid().width,
            widths(self.concat@, index) + local == axis_order(self.columns)[column],
            after.rows == self.rows,
            after.columns == self.columns,
            after.concat@ == self.concat@.update(index, next),
            next.wf(),
            next.grid() == self.concat@[index].grid().set(axis_order(self.rows)[row], local, value),
        ensures
            after.wf(),
            after.frame() == self.frame(),
            after.grid() == self.grid().set(row, column, value),
            after.stored() == self.stored().set(
                axis_order(self.rows)[row],
                axis_order(self.columns)[column],
                value,
            ),
    {
        let height = axis_order(self.rows).len();
        let count = self.concat@.len() as int;
        let stored_row = axis_order(self.rows)[row];
        let stored_column = axis_order(self.columns)[column];
        lemma_joined_write(self.concat@, height, index, next, stored_row, local, value);
        lemma_widths_by_outline(after.concat@, self.concat@, count);
        lemma_joined_shape(self.concat@, height, count);
        let target = self.grid().set(row, column, value);
        assert forall|i: int, j: int|
            0 <= i < target.height() && 0 <= j < target.width implies after.grid().rows[i][j]
            == target.rows[i][j] by {}
        after.grid().lemma_equal(target);
    }
}

impl<M: Matrix> View for Meow<M> {
    type V = Grid<M::Item>;

    /// The matrix as it reads: its grid.
    open spec fn view(&self) -> Grid<M::Item> {
        self.grid()
    }
}

impl<M: Matrix> Mapped for Meow<M> {
    type Item = M::Item;

    type Frame = Seq<nat>;

    open spec fn mapped_wf(&self) -> bool {
        self.wf()
    }

    /// The widths of the blocks.
    closed spec fn frame(&self) -> Seq<nat> {
        outline(self.concat@)
    }

    /// The blocks side by side.
    closed spec fn stored(&self) -> Grid<M::Item> {
        joined(self.concat@, axis_order(self.rows).len(), self.concat@.len() as int)
    }

    closed spec fn row_order(&self) -> Seq<int> {
        axis_order(self.rows)
    }

    closed spec fn column_order(&self) -> Seq<int> {
        axis_order(self.columns)
    }

    proof fn lemma_mapped_wf(&self) {
        lemma_axis_size(self.rows);
        lemma_axis_size(self.columns);
        lemma_joined_shape(
            self.concat@,
            axis_order(self.rows).len(),
            self.concat@.len() as int,
        );
    }

    fn row(&self, index: usize) -> (stored: Option<usize>) {
        axis_lookup(&self.rows, index)
    }

    fn column(&self, index: usize) -> (stored: Option<usize>) {
        axis_lookup(&self.columns, index)
    }

    fn cell(&mut self, row: usize, column: usize) -> (cell: &mut M::Item) {
        self.at_mut(row, column).unwrap()
    }

    fn reset_rows(&mut self, height: usize)
        ensures
            final(self).blocks() == old(self).blocks(),
    {
        proof {
            lemma_identity_is_permutation(height as nat);
        }
        self.rows = Either::Left(height);
    }

    fn reset_columns(&mut self, width: usize)
        ensures
            final(self).blocks() == old(self).blocks(),
    {
        proof {
            lemma_identity_is_permutation(width as nat);
        }
        self.columns = Either::Left(width);
    }
}

impl<M: Matrix> Meow<M> {
    /// The grid is the blocks side by side, read through the two orders.
    pub proof fn lemma_grid_is_stored_picked(&self)
        ensures
            self.grid() == self.stored().picked(self.row_order(), self.column_order()),
            self.stored() == joined(
                self.blocks(),
                self.row_order().len(),
                self.blocks().len() as int,
            ),
    {
    }

    /// With both orders the identity, the matrix reads as its blocks stand.
    proof fn lemma_plain(&self)
        requires
            self.wf(),
            self.row_order() == identity(self.row_order().len()),
            self.column_order() == identity(self.column_order().len()),
        ensures
            self.grid() == self.stored(),
    {
        self.lemma_mapped_wf();
        assert forall|i: int, j: int|
            0 <= i < self.grid().height() && 0 <= j < self.grid().width implies self.grid().rows[i][j]
            == self.stored().rows[i][j] by {}
        self.grid().lemma_equal(self.stored());
    }

    /// Moves the rows into logical order, unless they are stored in it already:
    /// afterwards the row order is the identity and the matrix reads as before.
    fn sync_rows(&mut self, temp: &mut M::Item)
        requires
            old(self).wf(),
        ensures
            final(self).wf(),
            final(self).grid() == old(self).grid(),
            final(self).frame() == old(self).frame(),
            final(self).row_order() == identity(old(self).grid().height()),
            final(self).column_order() == old(self).column_order(),
            *final(temp) == *old(temp),
    {
        if self.rows.is_right() {
            let height = self.height();
            let width = self.width();
            sync_each_column(self, width, temp);
            self.reset_rows(height);
            proof {
                lemma_widths_by_outline(self.concat@, old(self).concat@, self.concat@.len() as int);
                let target = old(self).grid();
                assert forall|i: int, j: int|
                    0 <= i < target.height() && 0 <= j < target.width implies self.grid().rows[i][j]
                    == target.rows[i][j] by {}
                self.grid().lemma_equal(target);
            }
        }
    }

    /// Moves the columns into logical order, unless they are stored in it already:
    /// afterwards the column order is the identity and the matrix reads as before.
    fn sync_columns(&mut self, temp: &mut M::Item)
        requires
            old(self).wf(),
        ensures
            final(self).wf(),
            final(self).grid() == old(self).grid(),
            final(self).frame() == old(self).frame(),
            final(self).column_order() == identity(old(self).grid().width),
            final(self).row_order() == old(self).row_order(),
            *final(temp) == *old(temp),
    {
        if self.columns.is_right() {
            let height = self.height();
            let width = self.width();
            sync_each_row(self, height, temp);
            self.reset_columns(width);
            proof {
                let target = old(self).grid();
                assert forall|i: int, j: int|
                    0 <= i < target.height() && 0 <= j < target.width implies self.grid().rows[i][j]
                    == target.rows[i][j] by {}
                self.grid().lemma_equal(target);
            }
        }
    }

    /// Takes the last block out, or returns `None` if there is none.
    ///
    /// The cells are first moved into logical order, so the block that leaves holds
    /// the last columns of the matrix as it read before the call, and what stays
    /// reads as the columns before them. Both orders end as the identity. `potty` is
    /// scratch space and ends as it began.
    pub fn poop(&mut self, potty: &mut M::Item) -> (block: Option<M>)
        requires
            old(self).wf(),
        ensures
            final(self).wf(),
            *final(potty) == *old(potty),
            block is Some <==> old(self).blocks().len() > 0,
            block is None ==> *final(self) == *old(self),
            block matches Some(last) ==> {
                let from = old(self).offset(old(self).blocks().len() - 1);
                &&& last.wf()
                &&& 0 <= from <= old(self).grid().width
                &&& last.grid() == old(self).grid().columns(from, old(self).grid().width as int)
                &&& final(self).grid() == old(self).grid().columns(0, from)
                &&& final(self).blocks().len() == old(self).blocks().len() - 1
                &&& final(self).row_order() == identity(old(self).grid().height())
                &&& final(self).column_order() == identity(from as nat)
            },
    {
        if self.concat.is_empty() {
            return None;
        }
        self.sync_columns(potty);
        self.sync_rows(potty);
        let height = self.height();
        let width = self.width();
        let ghost synced = *self;
        proof {
            assert(outline(self.concat@).len() == self.concat@.len());
            assert(outline(old(self).concat@).len() == old(self).concat@.len());
            self.lemma_plain();
            lemma_widths_by_outline(self.concat@, old(self).concat@, self.concat@.len() - 1);
            lemma_widths_monotone(self.concat@, self.concat@.len() - 1, self.concat@.len() as int);
        }
        let poop = self.concat.pop().unwrap();
        let rest = width - poop.width();
        self.columns = Either::Left(rest);
        self.rows = Either::Left(height);
        proof {
            let count = self.concat@.len() as int;
            lemma_identity_is_permutation(rest as nat);
            lemma_identity_is_permutation(height as nat);
            lemma_joined_prefix(self.concat@, synced.concat@, height as nat, count);
            lemma_joined_shape(self.concat@, height as nat, count);
            poop.lemma_grid_wf();
            joined(self.concat@, height as nat, count).lemma_beside_columns(poop.grid());
            self.lemma_plain();
        }
        Some(poop)
    }

    /// Takes the block `index` out, or returns `None` if there is no such block.
    ///
    /// The cells are first moved into logical order, so the block that leaves holds
    /// the columns that it covered in the matrix as it read before the call, and what
    /// stays reads as the columns before them followed by the columns behind them.
    /// Both orders end as the identity. `potty` is scratch space and ends as it began.
    pub fn extract(&mut self, index: usize, potty: &mut M::Item) -> (block: Option<M>)
        requires
            old(self).wf(),
        ensures
            final(self).wf(),
            *final(potty) == *old(potty),
            block is Some <==> index < old(self).blocks().len(),
            block is None ==> *final(self) == *old(self),
            block matches Some(taken) ==> {
                let from = old(self).offset(index as int);
                let upto = old(self).offset(index + 1);
                &&& taken.wf()
                &&& 0 <= from <= upto <= old(self).grid().width
                &&& taken.grid() == old(self).grid().columns(from, upto)
                &&& final(self).grid() == old(self).grid().columns(0, from).beside(
                    old(self).grid().columns(upto, old(self).grid().width as int),
                )
                &&& final(self).blocks().len() == old(self).blocks().len() - 1
                &&& final(self).row_order() == identity(old(self).grid().height())
                &&& final(self).column_order() == identity(
                    (old(self).grid().width - (upto - from)) as nat,
                )
            },
    {
        if index >= self.concat.len() {
            return None;
        }
        self.sync_columns(potty);
        self.sync_rows(potty);
        let height = self.height();
        let width = self.width();
        let ghost synced = *self;
        proof {
            assert(outline(self.concat@).len() == self.concat@.len());
            assert(outline(old(self).concat@).len() == old(self).concat@.len());
            self.lemma_plain();
            lemma_widths_by_outline(self.concat@, old(self).concat@, index as int);
            lemma_widths_by_outline(self.concat@, old(self).concat@, index + 1);
            lemma_joined_remove(self.concat@, height as nat, index as int);
        }
        let poop = self.concat.remove(index);
        let rest = width - poop.width();
        self.columns = Either::Left(rest);
        self.rows = Either::Left(height);
        proof {
            lemma_joined_remove(synced.concat@, height as nat, index as int);
            lemma_identity_is_permutation(rest as nat);
            lemma_identity_is_permutation(height as nat);
            self.lemma_plain();
        }
        Some(poop)
    }
}

impl<T: Clone> Meow<Array2d<T>> {
    /// Copies the columns that block `index` covers into a matrix of its own, or
    /// returns `None` if there is no such block. The cells are read as the matrix
    /// reads them, through both orders.
    pub fn calculate(&self, index: usize) -> (copy: Option<Array2d<T>>)
        requires
            self.wf(),
        ensures
            copy is Some <==> index < self.blocks().len(),
            copy matches Some(made) ==> {
                &&& made.wf()
                &&& made.grid().height() == self.grid().height()
                &&& made.grid().width == self.blocks()[index as int].grid().width
                &&& self.offset(index as int) + made.grid().width <= self.grid().width
                &&& forall|i: int, j: int|
                    0 <= i < made.grid().height() && 0 <= j < made.grid().width ==> cloned(
                        self.grid().cell(i, self.offset(index as int) + j),
                        #[trigger] made.grid().cell(i, j),
                    )
            },
    {
        if index >= self.concat.len() {
            None
        } else {
            let mut total: usize = 0;
            let mut k: usize = 0;
            proof {
                lemma_widths_monotone(self.concat@, index as int, self.concat@.len() as int);
                lemma_axis_size(self.columns);
            }
            while k < index
                invariant
                    self.wf(),
                    k <= index < self.concat@.len(),
                    total == widths(self.concat@, k as int),
                    widths(self.concat@, index as int) <= usize::MAX,
                decreases index - k,
            {
                proof {
                    lemma_widths_monotone(self.concat@, k + 1, index as int);
                }
                total = total + self.concat[k].width();
                k += 1;
            }
            let height = self.concat[index].height();
            let width = self.concat[index].width();
            proof {
                self.concat@[index as int].lemma_cells();
                lemma_widths_monotone(self.concat@, index + 1, self.concat@.len() as int);
                lemma_axis_size(self.columns);
                assert(total + width <= self.grid().width);
                assert(self.grid().width <= usize::MAX);
            }
            let pick = |i: usize, j: usize| -> (value: T)
                requires
                    i < height,
                    j < width,
                ensures
                    cloned(self.grid().cell(i as int, total + j), value),
                { self.at(i, total + j).unwrap().clone() };
            let made = Array2d::gen(height, width, pick);
            Some(made)
        }
    }
}

} // verus!

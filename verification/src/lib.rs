//! Dense matrices with lazily permuted rows and columns, block-wise concatenation,
//! Gaussian elimination and Jacobi iteration.
//!
//! Every matrix is modelled by a [`grid::Grid`]: its cells in the order in which it
//! reads. [`Matrix`] is what the algorithms ask of a matrix; [`Array2d`] stores
//! cells in one buffer, [`Meow`] sets matrices side by side, [`Transposed`] reads
//! one with rows and columns exchanged. [`Mapped`] moves the cells of a matrix so
//! that its orders of rows and columns become the identity.
//!
//! The algorithms are written once, over any [`Matrix`] whose cells are a
//! [`Scalar`]: the two passes of [`gauss`], the norms in this module, the iteration
//! of [`jacobi`]. [`single`] runs an elimination as a session that records what
//! it does. Their contracts say exactly which operations of the cells are applied
//! to which cells in which order; no law of arithmetic is assumed of the cells.

use vstd::prelude::*;

pub mod axis;
pub mod fold;
pub mod gauss;
pub mod grid;
pub mod indexes;
pub mod jacobi;
pub mod scalar;
pub mod single;

mod array2d;
mod iterators;
mod meow;
mod traits;
mod transposed;

pub use array2d::Array2d;
pub use indexes::Indexable;
pub use iterators::{Column, Columns, Iteratable, Row, Rows};
pub use meow::Meow;
pub use scalar::Scalar;
pub use traits::{Mapped, Matrix};
pub use transposed::Transposed;

use fold::{diagonal_product, largest, magnitude_sum, row_sums};

verus! {

/// The product of the diagonal cells, from the top left as far as the diagonal goes.
pub fn multiply_diagonal<M: Matrix>(m: &M) -> (product: M::Item) where M::Item: Scalar
    requires
        m.wf(),
    ensures
        product == diagonal_product(
            m.grid(),
            if m.grid().height() <= m.grid().width {
                m.grid().height() as int
            } else {
                m.grid().width as int
            },
        ),
{
    proof {
        m.lemma_grid_wf();
    }
    let mut product = M::Item::one();
    let mut i: usize = 0;
    loop
        invariant_except_break
            product == diagonal_product(m.grid(), i as int),
        invariant
            m.wf(),
            i <= m.grid().height(),
            i <= m.grid().width,
            m.grid().height() <= usize::MAX,
        ensures
            i == m.grid().height() || i == m.grid().width,
            product == diagonal_product(m.grid(), i as int),
        decreases m.grid().height() - i,
    {
        match m.at(i, i) {
            Some(value) => {
                product = product.times(*value);
                i += 1;
            },
            None => {
                break ;
            },
        }
    }
    product
}

/// The sum of the magnitudes of the cells that the cursor still has to hand out.
pub(crate) fn sum_magnitudes<M: Matrix>(row: Row<'_, M>) -> (sum: M::Item) where M::Item: Scalar
    requires
        row.wf(),
    ensures
        sum == magnitude_sum(row.remaining(), row.remaining().len() as int),
{
    let ghost cells = row.remaining();
    let ghost mut seen: int = 0;
    let mut row = row;
    let mut sum = M::Item::zero();
    loop
        invariant_except_break
            0 <= seen <= cells.len(),
            row.remaining() == cells.subrange(seen, cells.len() as int),
            sum == magnitude_sum(cells, seen),
        invariant
            row.wf(),
        ensures
            sum == magnitude_sum(cells, cells.len() as int),
        decreases row.remaining().len(),
    {
        match row.next() {
            Some(value) => {
                sum = sum.plus(value.magnitude());
                proof {
                    assert(row.remaining() =~= cells.subrange(seen + 1, cells.len() as int));
                    seen = seen + 1;
                }
            },
            None => {
                break ;
            },
        }
    }
    sum
}

/// The largest row sum of magnitudes. The matrix has at least one row.
pub fn inf_norm<M: Matrix>(m: &M) -> (norm: M::Item) where M::Item: Scalar
    requires
        m.wf(),
        m.grid().height() >= 1,
    ensures
        norm == largest(row_sums(m.grid()), m.grid().height() as int),
{
    proof {
        m.lemma_grid_wf();
    }
    let ghost height = m.grid().height() as int;
    let ghost all = Seq::new(m.grid().height(), |k: int| k as usize);
    let mut rows = m.rows();
    let mut norm = match rows.next() {
        Some(row) => {
            proof {
                assert(m.grid().rows[0].len() == m.grid().width);
            }
            sum_magnitudes(row)
        },
        None => M::Item::zero(),
    };
    let ghost mut seen: int = 1;
    proof {
        assert(rows.remaining() =~= all.subrange(1, height));
    }
    loop
        invariant_except_break
            1 <= seen <= height,
            rows.remaining() == all.subrange(seen, height),
            norm == largest(row_sums(m.grid()), seen),
        invariant
            rows.wf(),
            rows.origin() == m,
            m.wf(),
            m.grid().wf(),
            height == m.grid().height(),
            height <= usize::MAX,
            all == Seq::new(m.grid().height(), |k: int| k as usize),
        ensures
            norm == largest(row_sums(m.grid()), height),
        decreases rows.remaining().len(),
    {
        let ghost before = rows.remaining();
        match rows.next() {
            Some(row) => {
                proof {
                    assert(before.first() == all[seen]);
                    assert(row.remaining() == m.grid().rows[seen]);
                    assert(m.grid().rows[seen].len() == m.grid().width);
                }
                let sum = sum_magnitudes(row);
                proof {
                    assert(sum == row_sums(m.grid())[seen]);
                }
                if sum.exceeds(norm) {
                    norm = sum;
                }
                proof {
                    assert(rows.remaining() =~= all.subrange(seen + 1, height));
                    seen = seen + 1;
                }
            },
            None => {
                break ;
            },
        }
    }
    norm
}

} // verus!

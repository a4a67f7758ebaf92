//! Sums, products and maxima of cells, as the elimination and iteration routines
//! compute them: one cell after the other, in order.

use crate::grid::Grid;
use crate::scalar::Scalar;
use vstd::prelude::*;

verus! {

/// The magnitudes of the first `count` cells, added up from zero in order.
pub open spec fn magnitude_sum<T: Scalar>(cells: Seq<T>, count: int) -> T
    decreases count,
{
    if count <= 0 {
        T::spec_zero()
    } else {
        magnitude_sum(cells, count - 1).spec_plus(cells[count - 1].spec_magnitude())
    }
}

/// The largest of the first `count` values, by `exceeds`; of several such values the
/// first. `count` is at least one.
pub open spec fn largest<T: Scalar>(values: Seq<T>, count: int) -> T
    decreases count,
{
    if count <= 1 {
        values[0]
    } else {
        let best = largest(values, count - 1);
        if values[count - 1].spec_exceeds(best) {
            values[count - 1]
        } else {
            best
        }
    }
}

/// The first `count` diagonal cells, multiplied up from one in order.
pub open spec fn diagonal_product<T: Scalar>(g: Grid<T>, count: int) -> T
    decreases count,
{
    if count <= 0 {
        T::spec_one()
    } else {
        diagonal_product(g, count - 1).spec_times(g.rows[count - 1][count - 1])
    }
}

/// For each row, the sum of the magnitudes of its cells.
pub open spec fn row_sums<T: Scalar>(g: Grid<T>) -> Seq<T> {
    Seq::new(g.height(), |i: int| magnitude_sum(g.rows[i], g.width as int))
}

/// A vector with the same entries.
pub(crate) fn duplicate<T: Copy>(values: &Vec<T>) -> (copy: Vec<T>)
    ensures
        copy@ == values@,
{
    let mut copy: Vec<T> = Vec::new();
    let mut i: usize = 0;
    while i < values.len()
        invariant
            i <= values@.len(),
            copy@ == values@.subrange(0, i as int),
        decreases values@.len() - i,
    {
        copy.push(values[i]);
        proof {
            assert(copy@ =~= values@.subrange(0, i + 1));
        }
        i += 1;
    }
    proof {
        assert(copy@ =~= values@);
    }
    copy
}

} // verus!

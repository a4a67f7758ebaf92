//! Triangularisation of a matrix in place, with row exchanges where the diagonal is zero.

use crate::grid::Grid;
use crate::iterators::{column_values, Iteratable};
use crate::scalar::Scalar;
use crate::traits::Matrix;
use vstd::prelude::*;

verus! {

/// The row, among `from..upto`, that holds the largest entry of `column`; of several
/// such rows, the one of the lowest index.
pub open spec fn leading_row<T: Scalar>(g: Grid<T>, column: int, from: int, upto: int) -> int
    decreases upto - from,
{
    if upto <= from + 1 {
        from
    } else {
        let best = leading_row(g, column, from, upto - 1);
        if g.rows[upto - 1][column].spec_exceeds(g.rows[best][column]) {
            upto - 1
        } else {
            best
        }
    }
}

pub proof fn lemma_leading_row_bounds<T: Scalar>(g: Grid<T>, column: int, from: int, upto: int)
    requires
        from < upto,
    ensures
        from <= leading_row(g, column, from, upto) < upto,
    decreases upto - from,
{
    if upto > from + 1 {
        lemma_leading_row_bounds(g, column, from, upto - 1);
    }
}

/// Row `r` after the entries of row `i`, scaled by `g[r][i] / pivot`, were taken from
/// it in the columns right of `i`, and its entry in column `i` was set to zero.
pub open spec fn reduced_below<T: Scalar>(g: Grid<T>, i: int, pivot: T, r: int) -> Seq<T> {
    let factor = g.rows[r][i].spec_over(pivot);
    Seq::new(
        g.width,
        |c: int|
            if c < i {
                g.rows[r][c]
            } else if c == i {
                T::spec_zero()
            } else {
                g.rows[r][c].spec_minus(g.rows[i][c].spec_times(factor))
            },
    )
}

/// The grid after step `i` of the lower pass, once the pivot row stands in row `i`:
/// every row below `i` is reduced, the rows down to `i` stay.
pub open spec fn cleared_below<T: Scalar>(g: Grid<T>, i: int, pivot: T) -> Grid<T> {
    Grid {
        width: g.width,
        rows: Seq::new(
            g.rows.len(),
            |r: int| if r <= i { g.rows[r] } else { reduced_below(g, i, pivot, r) },
        ),
    }
}

/// Step `i` of the lower pass. A diagonal entry that is not zero is the pivot as it
/// stands; otherwise the leading row of column `i` from row `i` down is brought up.
pub open spec fn lower_step<T: Scalar>(g: Grid<T>, i: int) -> Grid<T> {
    if g.rows[i][i].spec_is_zero() {
        let lead = leading_row(g, i, i, g.height() as int);
        cleared_below(g.swap_rows(lead, i), i, g.rows[lead][i])
    } else {
        cleared_below(g, i, g.rows[i][i])
    }
}

/// The grid after the first `steps` steps of the lower pass.
pub open spec fn lower_pass<T: Scalar>(g: Grid<T>, steps: nat) -> Grid<T>
    decreases steps,
{
    if steps == 0 {
        g
    } else {
        lower_step(lower_pass(g, (steps - 1) as nat), steps - 1)
    }
}

pub proof fn lemma_lower_step_shape<T: Scalar>(g: Grid<T>, i: int)
    requires
        g.wf(),
        0 <= i < g.height(),
    ensures
        lower_step(g, i).wf(),
        lower_step(g, i).height() == g.height(),
        lower_step(g, i).width == g.width,
{
    lemma_leading_row_bounds(g, i, i, g.height() as int);
}

pub proof fn lemma_lower_pass_shape<T: Scalar>(g: Grid<T>, steps: nat)
    requires
        g.wf(),
        steps <= g.height(),
    ensures
        lower_pass(g, steps).wf(),
        lower_pass(g, steps).height() == g.height(),
        lower_pass(g, steps).width == g.width,
    decreases steps,
{
    if steps > 0 {
        lemma_lower_pass_shape(g, (steps - 1) as nat);
        lemma_lower_step_shape(lower_pass(g, (steps - 1) as nat), steps - 1);
    }
}

/// After `steps` steps of the lower pass, the first `steps` columns are zero below
/// the diagonal.
pub proof fn lemma_lower_pass_triangular<T: Scalar>(g: Grid<T>, steps: nat, row: int, column: int)
    requires
        g.wf(),
        steps <= g.height(),
        steps <= g.width,
        0 <= column < row < g.height(),
        column < steps,
    ensures
        lower_pass(g, steps).rows[row][column] == T::spec_zero(),
    decreases steps,
{
    let i = steps - 1;
    let before = lower_pass(g, i as nat);
    lemma_lower_pass_shape(g, i as nat);
    lemma_leading_row_bounds(before, i, i, before.height() as int);
    if column < i {
        lemma_lower_pass_triangular(g, i as nat, row, column);
        let lead = leading_row(before, i, i, before.height() as int);
        lemma_lower_pass_triangular(g, i as nat, lead, column);
        if i > column {
            lemma_lower_pass_triangular(g, i as nat, i, column);
        }
    }
}

/// Finds the leading row of `column` among the rows `from..upto`, with a cursor that
/// runs down the column.
fn find_leading_row<M: Matrix>(m: &M, column: usize, from: usize, upto: usize) -> (lead: usize) where
    M::Item: Scalar,

    requires
        m.wf(),
        from < upto <= m.grid().height(),
        column < m.grid().width,
    ensures
        lead == leading_row(m.grid(), column as int, from as int, upto as int),
        from <= lead < upto,
{
    let ghost cells = column_values(m, column);
    let mut cursor = m.column(column);
    let mut row: usize = 0;
    while row < from
        invariant
            cursor.wf(),
            row <= from < m.grid().height(),
            cells.len() == m.grid().height(),
            cursor.remaining() == cells.subrange(row as int, cells.len() as int),
        decreases from - row,
    {
        let _ = cursor.next();
        proof {
            assert(cursor.remaining() =~= cells.subrange(row + 1, cells.len() as int));
        }
        row += 1;
    }
    let mut lead = from;
    let mut best = match cursor.next() {
        Some(value) => *value,
        None => M::Item::zero(),
    };
    proof {
        assert(cursor.remaining() =~= cells.subrange(row + 1, cells.len() as int));
    }
    row += 1;
    while row < upto
        invariant
            cursor.wf(),
            upto <= m.grid().height(),
            column < m.grid().width,
            cells == column_values(m, column),
            cells.len() == m.grid().height(),
            from < row <= upto,
            from <= lead < row,
            lead == leading_row(m.grid(), column as int, from as int, row as int),
            best == m.grid().rows[lead as int][column as int],
            cursor.remaining() == cells.subrange(row as int, cells.len() as int),
        decreases upto - row,
    {
        match cursor.next() {
            Some(value) => {
                if value.exceeds(best) {
                    lead = row;
                    best = *value;
                }
            },
            None => {},
        }
        proof {
            assert(cursor.remaining() =~= cells.subrange(row + 1, cells.len() as int));
        }
        row += 1;
    }
    lead
}

/// Reduces every row below `i` by row `i`, as `cleared_below` says.
fn clear_below<M: Matrix>(m: &mut M, i: usize, pivot: M::Item) -> (done: Option<()>) where
    M::Item: Scalar,

    requires
        old(m).wf(),
        old(m).grid().holds(i as int, i as int),
    ensures
        done is Some,
        final(m).wf(),
        final(m).grid() == cleared_below(old(m).grid(), i as int, pivot),
{
    let height = m.height();
    let width = m.width();
    let ghost start = m.grid();
    proof {
        m.lemma_grid_wf();
    }
    let mut row = i + 1;
    while row < height
        invariant
            m.wf(),
            start.wf(),
            start.holds(i as int, i as int),
            height == start.height(),
            width == start.width,
            m.grid().wf(),
            m.grid().height() == height,
            m.grid().width == width,
            i < row <= height,
            forall|r: int| 0 <= r < row ==> #[trigger] m.grid().rows[r] == cleared_below(
                start,
                i as int,
                pivot,
            ).rows[r],
            forall|r: int| row <= r < height ==> #[trigger] m.grid().rows[r] == start.rows[r],
        decreases height - row,
    {
        let ghost outer = m.grid();
        let factor = (*m.at(row, i)?).over(pivot);
        *m.at_mut(row, i)? = M::Item::zero();
        proof {
            m.lemma_grid_wf();
        }
        let mut column = i + 1;
        while column < width
            invariant
                m.wf(),
                start.wf(),
                start.holds(i as int, i as int),
                height == start.height(),
                width == start.width,
                m.grid().wf(),
                m.grid().height() == height,
                m.grid().width == width,
                i < row < height,
                i < column <= width,
                factor == start.rows[row as int][i as int].spec_over(pivot),
                forall|r: int|
                    0 <= r < height && r != row ==> #[trigger] m.grid().rows[r] == outer.rows[r],
                outer.rows[i as int] == start.rows[i as int],
                forall|c: int|
                    0 <= c < column ==> #[trigger] m.grid().rows[row as int][c] == reduced_below(
                        start,
                        i as int,
                        pivot,
                        row as int,
                    )[c],
                forall|c: int|
                    column <= c < width ==> #[trigger] m.grid().rows[row as int][c]
                        == start.rows[row as int][c],
            decreases width - column,
        {
            let source = (*m.at(i, column)?).times(factor);
            let target = m.at_mut(row, column)?;
            *target = (*target).minus(source);
            proof {
                m.lemma_grid_wf();
            }
            column += 1;
        }
        proof {
            assert(m.grid().rows[row as int] =~= reduced_below(start, i as int, pivot, row as int));
        }
        row += 1;
    }
    proof {
        assert(m.grid().rows =~= cleared_below(start, i as int, pivot).rows);
    }
    Some(())
}

/// Brings the matrix to upper triangular form: after step `i` every entry of
/// column `i` below the diagonal is zero.
///
/// Step `i` takes the diagonal entry as its pivot; where that is zero, it exchanges
/// row `i` with the leading row of column `i` first. The pass ends with `None` at the
/// first row that has no diagonal entry, which happens exactly if the matrix is
/// taller than wide; the steps before it have been made.
pub fn calc_l<M: Matrix>(m: &mut M) -> (done: Option<()>) where M::Item: Scalar
    requires
        old(m).wf(),
    ensures
        final(m).wf(),
        done is Some <==> old(m).grid().height() <= old(m).grid().width,
        done is Some ==> final(m).grid() == lower_pass(old(m).grid(), old(m).grid().height()),
        done is None ==> final(m).grid() == lower_pass(old(m).grid(), old(m).grid().width),
        done is Some ==> forall|i: int, j: int|
            0 <= j < i < old(m).grid().height() ==> #[trigger] final(m).grid().rows[i][j]
                == M::Item::spec_zero(),
{
    let h: usize = m.height();
    let w: usize = m.width();
    let ghost start = m.grid();
    proof {
        m.lemma_grid_wf();
    }
    let mut i: usize = 0;
    while i < h
        invariant
            m.wf(),
            start == old(m).grid(),
            start.wf(),
            h == start.height(),
            w == start.width,
            i <= h,
            i <= w,
            m.grid() == lower_pass(start, i as nat),
        decreases h - i,
    {
        proof {
            lemma_lower_pass_shape(start, i as nat);
        }
        let diag = match m.at(i, i) {
            Some(value) => *value,
            None => { return None; },
        };
        let value = if diag.is_zero() {
            let lead = find_leading_row(m, i, i, h);
            let value = match m.at(lead, i) {
                Some(value) => *value,
                None => { return None; },
            };
            if lead != i {
                m.swap_rows(lead, i)?;
            } else {
                proof {
                    assert(m.grid().swap_rows(i as int, i as int).rows =~= m.grid().rows);
                }
            }
            value
        } else {
            diag
        };
        clear_below(m, i, value)?;
        i += 1;
    }
    proof {
        assert forall|i: int, j: int| 0 <= j < i < h implies #[trigger] m.grid().rows[i][j]
            == M::Item::spec_zero() by {
            lemma_lower_pass_triangular(start, h as nat, i, j);
        }
    }
    Some(())
}

/// Row `r` after the entries of row `t`, scaled by `g[r][t] / pivot`, were taken from
/// it in every column from `r` on but `t`, and its entry in column `t` was set to zero.
pub open spec fn reduced_above<T: Scalar>(g: Grid<T>, t: int, pivot: T, r: int) -> Seq<T> {
    let factor = g.rows[r][t].spec_over(pivot);
    Seq::new(
        g.width,
        |c: int|
            if c < r {
                g.rows[r][c]
            } else if c == t {
                T::spec_zero()
            } else {
                g.rows[r][c].spec_minus(g.rows[t][c].spec_times(factor))
            },
    )
}

/// The grid after the step of the upper pass for row `t`, once the pivot row stands
/// in row `t`: every row above `t` is reduced, the rows from `t` down stay.
pub open spec fn cleared_above<T: Scalar>(g: Grid<T>, t: int, pivot: T) -> Grid<T> {
    Grid {
        width: g.width,
        rows: Seq::new(
            g.rows.len(),
            |r: int| if r >= t { g.rows[r] } else { reduced_above(g, t, pivot, r) },
        ),
    }
}

/// The grid as the step of the upper pass for row `t` reduces it: where the diagonal
/// entry is zero, the leading row of column `t` among the rows down to `t` stands in
/// row `t`.
pub open spec fn upper_settled<T: Scalar>(g: Grid<T>, t: int) -> Grid<T> {
    if g.rows[t][t].spec_is_zero() {
        g.swap_rows(leading_row(g, t, 0, t + 1), t)
    } else {
        g
    }
}

/// The step of the upper pass for row `t`. A diagonal entry that is not zero is the
/// pivot as it stands; otherwise the leading row of column `t` among the rows down
/// to `t` is brought down.
pub open spec fn upper_step<T: Scalar>(g: Grid<T>, t: int) -> Grid<T> {
    cleared_above(upper_settled(g, t), t, upper_settled(g, t).rows[t][t])
}

/// Taking zero times `factor` from zero leaves zero.
pub open spec fn absorbed<T: Scalar>(factor: T) -> bool {
    T::spec_zero().spec_minus(T::spec_zero().spec_times(factor)) == T::spec_zero()
}

/// Every factor by which the first `steps` steps of the upper pass scale a pivot
/// row is absorbed by zero.
pub open spec fn upper_pass_tame<T: Scalar>(g: Grid<T>, steps: nat) -> bool
    decreases steps,
{
    if steps == 0 {
        true
    } else {
        let t = g.height() - steps;
        let settled = upper_settled(upper_pass(g, (steps - 1) as nat), t);
        &&& upper_pass_tame(g, (steps - 1) as nat)
        &&& forall|r: int|
            0 <= r < t ==> absorbed(#[trigger] settled.rows[r][t].spec_over(settled.rows[t][t]))
    }
}

/// The grid after the first `steps` steps of the upper pass, which begins at the
/// last row.
pub open spec fn upper_pass<T: Scalar>(g: Grid<T>, steps: nat) -> Grid<T>
    decreases steps,
{
    if steps == 0 {
        g
    } else {
        upper_step(upper_pass(g, (steps - 1) as nat), g.height() - steps)
    }
}

pub proof fn lemma_upper_step_shape<T: Scalar>(g: Grid<T>, t: int)
    requires
        g.wf(),
        0 <= t < g.height(),
    ensures
        upper_step(g, t).wf(),
        upper_step(g, t).height() == g.height(),
        upper_step(g, t).width == g.width,
{
    lemma_leading_row_bounds(g, t, 0, t + 1);
}

pub proof fn lemma_upper_pass_shape<T: Scalar>(g: Grid<T>, steps: nat)
    requires
        g.wf(),
        steps <= g.height(),
    ensures
        upper_pass(g, steps).wf(),
        upper_pass(g, steps).height() == g.height(),
        upper_pass(g, steps).width == g.width,
    decreases steps,
{
    if steps > 0 {
        lemma_upper_pass_shape(g, (steps - 1) as nat);
        lemma_upper_step_shape(upper_pass(g, (steps - 1) as nat), g.height() - steps);
    }
}

/// After `steps` steps of the upper pass on a matrix that is not taller than wide,
/// the last `steps` of the columns that cross the diagonal are zero above it,
/// provided zero absorbed every factor on the way.
pub proof fn lemma_upper_pass_triangular<T: Scalar>(g: Grid<T>, steps: nat, row: int, column: int)
    requires
        g.wf(),
        steps <= g.height() <= g.width,
        upper_pass_tame(g, steps),
        0 <= row < column < g.height(),
        column >= g.height() - steps,
    ensures
        upper_pass(g, steps).rows[row][column] == T::spec_zero(),
    decreases steps,
{
    let t = g.height() - steps;
    let before = upper_pass(g, (steps - 1) as nat);
    lemma_upper_pass_shape(g, (steps - 1) as nat);
    lemma_leading_row_bounds(before, t, 0, t + 1);
    let settled = upper_settled(before, t);
    if column > t {
        let lead = leading_row(before, t, 0, t + 1);
        lemma_upper_pass_triangular(g, (steps - 1) as nat, row, column);
        lemma_upper_pass_triangular(g, (steps - 1) as nat, t, column);
        lemma_upper_pass_triangular(g, (steps - 1) as nat, lead, column);
        assert(settled.rows[row][column] == T::spec_zero());
        assert(settled.rows[t][column] == T::spec_zero());
        if row < t {
            assert(absorbed(settled.rows[row][t].spec_over(settled.rows[t][t])));
        }
    }
}

/// Reduces every row above `t` by row `t`, from the row next to it up to the first,
/// as `cleared_above` says.
fn clear_above<M: Matrix>(m: &mut M, t: usize, pivot: M::Item) -> (done: Option<()>) where
    M::Item: Scalar,

    requires
        old(m).wf(),
        old(m).grid().holds(t as int, t as int),
    ensures
        done is Some,
        final(m).wf(),
        final(m).grid() == cleared_above(old(m).grid(), t as int, pivot),
{
    let height = m.height();
    let width = m.width();
    let ghost start = m.grid();
    proof {
        m.lemma_grid_wf();
    }
    let mut row = t;
    while row > 0
        invariant
            m.wf(),
            start.wf(),
            start.holds(t as int, t as int),
            height == start.height(),
            width == start.width,
            m.grid().wf(),
            m.grid().height() == height,
            m.grid().width == width,
            row <= t,
            forall|r: int|
                row <= r < height ==> #[trigger] m.grid().rows[r] == cleared_above(
                    start,
                    t as int,
                    pivot,
                ).rows[r],
            forall|r: int| 0 <= r < row ==> #[trigger] m.grid().rows[r] == start.rows[r],
        decreases row,
    {
        row -= 1;
        let ghost outer = m.grid();
        let factor = (*m.at(row, t)?).over(pivot);
        *m.at_mut(row, t)? = M::Item::zero();
        proof {
            m.lemma_grid_wf();
        }
        let mut column = row;
        while column < t
            invariant
                m.wf(),
                start.wf(),
                start.holds(t as int, t as int),
                height == start.height(),
                width == start.width,
                m.grid().wf(),
                m.grid().height() == height,
                m.grid().width == width,
                row < t,
                row <= column <= t,
                factor == start.rows[row as int][t as int].spec_over(pivot),
                forall|r: int|
                    0 <= r < height && r != row ==> #[trigger] m.grid().rows[r] == outer.rows[r],
                outer.rows[t as int] == start.rows[t as int],
                forall|c: int|
                    0 <= c < column || c == t ==> #[trigger] m.grid().rows[row as int][c]
                        == reduced_above(start, t as int, pivot, row as int)[c],
                forall|c: int|
                    column <= c < width && c != t ==> #[trigger] m.grid().rows[row as int][c]
                        == start.rows[row as int][c],
            decreases t - column,
        {
            let source = (*m.at(t, column)?).times(factor);
            let target = m.at_mut(row, column)?;
            *target = (*target).minus(source);
            proof {
                m.lemma_grid_wf();
            }
            column += 1;
        }
        let mut column = t + 1;
        while column < width
            invariant
                m.wf(),
                start.wf(),
                start.holds(t as int, t as int),
                height == start.height(),
                width == start.width,
                m.grid().wf(),
                m.grid().height() == height,
                m.grid().width == width,
                row < t,
                t < column <= width,
                factor == start.rows[row as int][t as int].spec_over(pivot),
                forall|r: int|
                    0 <= r < height && r != row ==> #[trigger] m.grid().rows[r] == outer.rows[r],
                outer.rows[t as int] == start.rows[t as int],
                forall|c: int|
                    0 <= c < column ==> #[trigger] m.grid().rows[row as int][c] == reduced_above(
                        start,
                        t as int,
                        pivot,
                        row as int,
                    )[c],
                forall|c: int|
                    column <= c < width ==> #[trigger] m.grid().rows[row as int][c]
                        == start.rows[row as int][c],
            decreases width - column,
        {
            let source = (*m.at(t, column)?).times(factor);
            let target = m.at_mut(row, column)?;
            *target = (*target).minus(source);
            proof {
                m.lemma_grid_wf();
            }
            column += 1;
        }
        proof {
            assert(m.grid().rows[row as int] =~= reduced_above(start, t as int, pivot, row as int));
        }
    }
    proof {
        assert(m.grid().rows =~= cleared_above(start, t as int, pivot).rows);
    }
    Some(())
}

/// Clears the entries above the diagonal, from the last row up: the step for row
/// `t` zeroes column `t` in every row above `t`.
///
/// The step takes the diagonal entry as its pivot; where that is zero, it exchanges
/// row `t` with the leading row of column `t` among the rows down to `t` first. A
/// matrix that is taller than wide has no diagonal entry in its last row: the pass
/// then ends with `None` before it has changed anything.
pub fn calc_u<M: Matrix>(m: &mut M) -> (done: Option<()>) where M::Item: Scalar
    requires
        old(m).wf(),
    ensures
        final(m).wf(),
        done is Some <==> old(m).grid().height() <= old(m).grid().width,
        done is Some ==> final(m).grid() == upper_pass(old(m).grid(), old(m).grid().height()),
        done is None ==> final(m).grid() == old(m).grid(),
        done is Some && upper_pass_tame(old(m).grid(), old(m).grid().height()) ==> forall|
            i: int,
            j: int,
        |
            0 <= i < j < old(m).grid().height() ==> #[trigger] final(m).grid().rows[i][j]
                == M::Item::spec_zero(),
{
    let h: usize = m.height();
    let ghost start = m.grid();
    proof {
        m.lemma_grid_wf();
    }
    let mut i: usize = 0;
    while i < h
        invariant
            m.wf(),
            start == old(m).grid(),
            start.wf(),
            h == start.height(),
            i <= h,
            i > 0 ==> h <= start.width,
            m.grid() == upper_pass(start, i as nat),
        decreases h - i,
    {
        let t = h - i - 1;
        proof {
            lemma_upper_pass_shape(start, i as nat);
        }
        let diag = match m.at(t, t) {
            Some(value) => *value,
            None => { return None; },
        };
        let value = if diag.is_zero() {
            let lead = find_leading_row(m, t, 0, t + 1);
            let value = match m.at(lead, t) {
                Some(value) => *value,
                None => { return None; },
            };
            if lead != t {
                m.swap_rows(lead, t)?;
            } else {
                proof {
                    assert(m.grid().swap_rows(t as int, t as int).rows =~= m.grid().rows);
                }
            }
            value
        } else {
            diag
        };
        clear_above(m, t, value)?;
        i += 1;
    }
    proof {
        if upper_pass_tame(start, h as nat) {
            assert forall|i: int, j: int| 0 <= i < j < h implies #[trigger] m.grid().rows[i][j]
                == M::Item::spec_zero() by {
                lemma_upper_pass_triangular(start, h as nat, i, j);
            }
        }
    }
    Some(())
}

/// The grid with every row divided by its own diagonal entry.
pub open spec fn normalized<T: Scalar>(g: Grid<T>) -> Grid<T> {
    Grid {
        width: g.width,
        rows: Seq::new(
            g.rows.len(),
            |i: int| Seq::new(g.width, |j: int| g.rows[i][j].spec_over(g.rows[i][i])),
        ),
    }
}

/// Divides each row by its diagonal entry, the diagonal entry itself included.
/// Every row needs a diagonal entry, so the matrix is not taller than wide.
pub fn normalize<M: Matrix>(m: &mut M) where M::Item: Scalar
    requires
        old(m).wf(),
        old(m).grid().height() <= old(m).grid().width,
    ensures
        final(m).wf(),
        final(m).grid() == normalized(old(m).grid()),
{
    let height = m.height();
    let width = m.width();
    let ghost start = m.grid();
    proof {
        m.lemma_grid_wf();
    }
    let mut i: usize = 0;
    while i < height
        invariant
            m.wf(),
            start.wf(),
            height == start.height(),
            width == start.width,
            height <= width,
            m.grid().wf(),
            m.grid().height() == height,
            m.grid().width == width,
            i <= height,
            forall|r: int| 0 <= r < i ==> #[trigger] m.grid().rows[r] == normalized(start).rows[r],
            forall|r: int| i <= r < height ==> #[trigger] m.grid().rows[r] == start.rows[r],
        decreases height - i,
    {
        let ghost outer = m.grid();
        let diag = match m.at(i, i) {
            Some(value) => *value,
            None => M::Item::one(),
        };
        let mut j: usize = 0;
        while j < width
            invariant
                m.wf(),
                start.wf(),
                height == start.height(),
                width == start.width,
                m.grid().wf(),
                m.grid().height() == height,
                m.grid().width == width,
                i < height,
                i < width,
                j <= width,
                diag == start.rows[i as int][i as int],
                forall|r: int|
                    0 <= r < height && r != i ==> #[trigger] m.grid().rows[r] == outer.rows[r],
                forall|c: int|
                    0 <= c < j ==> #[trigger] m.grid().rows[i as int][c] == normalized(
                        start,
                    ).rows[i as int][c],
                forall|c: int|
                    j <= c < width ==> #[trigger] m.grid().rows[i as int][c]
                        == start.rows[i as int][c],
            decreases width - j,
        {
            match m.at_mut(i, j) {
                Some(cell) => {
                    *cell = (*cell).over(diag);
                },
                None => {},
            }
            proof {
                m.lemma_grid_wf();
            }
            j += 1;
        }
        proof {
            assert(m.grid().rows[i as int] =~= normalized(start).rows[i as int]);
        }
        i += 1;
    }
    proof {
        assert(m.grid().rows =~= normalized(start).rows);
    }
}

} // verus!

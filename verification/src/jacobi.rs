//! Jacobi iteration for a system of linear equations, and the test of diagonal
//! dominance that tells when it is safe to run.

use crate::fold::{duplicate, largest, magnitude_sum};
use crate::grid::Grid;
use crate::iterators::Iteratable;
use crate::scalar::Scalar;
use crate::sum_magnitudes;
use crate::traits::Matrix;
use vstd::prelude::*;

verus! {

/// Row `i` is dominated by its diagonal: the magnitude of the diagonal cell is not
/// below the sum of the magnitudes of the row less that magnitude.
pub open spec fn row_dominated<T: Scalar>(g: Grid<T>, i: int) -> bool {
    let d = g.rows[i][i].spec_magnitude();
    !d.spec_below(magnitude_sum(g.rows[i], g.width as int).spec_minus(d))
}

/// Tells whether every row is dominated by its diagonal. A row that is exactly at
/// the boundary counts as dominated. Every row needs a diagonal cell, so the matrix
/// is not taller than wide.
pub fn converges_for<M: Matrix>(m: &M) -> (converges: bool) where M::Item: Scalar
    requires
        m.wf(),
        m.grid().height() <= m.grid().width,
    ensures
        converges == forall|i: int| 0 <= i < m.grid().height() ==> row_dominated(m.grid(), i),
{
    proof {
        m.lemma_grid_wf();
    }
    let ghost height = m.grid().height() as int;
    let ghost all = Seq::new(m.grid().height(), |k: int| k as usize);
    let mut rows = m.rows();
    let mut i: usize = 0;
    loop
        invariant_except_break
            rows.remaining() == all.subrange(i as int, height),
            forall|r: int| 0 <= r < i ==> row_dominated(m.grid(), r),
        invariant
            rows.wf(),
            rows.origin() == m,
            m.wf(),
            m.grid().wf(),
            height == m.grid().height(),
            height <= m.grid().width,
            height <= usize::MAX,
            0 <= i <= height,
            all == Seq::new(m.grid().height(), |k: int| k as usize),
        ensures
            forall|r: int| 0 <= r < height ==> row_dominated(m.grid(), r),
        decreases rows.remaining().len(),
    {
        let ghost before = rows.remaining();
        match rows.next() {
            Some(row) => {
                proof {
                    assert(before.first() == all[i as int]);
                    assert(row.remaining() == m.grid().rows[i as int]);
                    assert(m.grid().rows[i as int].len() == m.grid().width);
                    assert(rows.remaining() =~= all.subrange(i + 1, height));
                }
                let d = match m.at(i, i) {
                    Some(value) => value.magnitude(),
                    None => M::Item::zero(),
                };
                let sum = sum_magnitudes(row);
                if d.below(sum.minus(d)) {
                    proof {
                        assert(!row_dominated(m.grid(), i as int));
                    }
                    return false;
                }
                i += 1;
            },
            None => {
                break ;
            },
        }
    }
    true
}

/// The magnitudes of the differences of `a` and `b`, position by position, as far as
/// the shorter of the two goes.
pub open spec fn differences<T: Scalar>(a: Seq<T>, b: Seq<T>) -> Seq<T> {
    Seq::new(
        if a.len() <= b.len() {
            a.len()
        } else {
            b.len()
        },
        |i: int| a[i].spec_minus(b[i]).spec_magnitude(),
    )
}

/// The largest magnitude of a difference between `a` and `b`. Neither is empty.
pub fn dx<T: Scalar>(a: &Vec<T>, b: &Vec<T>) -> (distance: T)
    requires
        a@.len() >= 1,
        b@.len() >= 1,
    ensures
        distance == largest(differences(a@, b@), differences(a@, b@).len() as int),
{
    let count = if a.len() <= b.len() {
        a.len()
    } else {
        b.len()
    };
    let mut distance = a[0].minus(b[0]).magnitude();
    let mut i: usize = 1;
    while i < count
        invariant
            count == differences(a@, b@).len(),
            count <= a@.len(),
            count <= b@.len(),
            1 <= i <= count,
            distance == largest(differences(a@, b@), i as int),
        decreases count - i,
    {
        let d = a[i].minus(b[i]).magnitude();
        if d.exceeds(distance) {
            distance = d;
        }
        i += 1;
    }
    distance
}

/// What is left of `b[i]` after `a[i][j] * x[j]` was taken from it for every `j`
/// below `upto` but `i`, in order.
pub open spec fn residue<T: Scalar>(g: Grid<T>, b: Seq<T>, x: Seq<T>, i: int, upto: int) -> T
    decreases upto,
{
    if upto <= 0 {
        b[i]
    } else if upto - 1 == i {
        residue(g, b, x, i, upto - 1)
    } else {
        residue(g, b, x, i, upto - 1).spec_minus(g.rows[i][upto - 1].spec_times(x[upto - 1]))
    }
}

/// The next estimate: each entry is computed from the estimate `x` alone.
pub open spec fn next_estimate<T: Scalar>(g: Grid<T>, b: Seq<T>, x: Seq<T>) -> Seq<T> {
    Seq::new(x.len(), |i: int| residue(g, b, x, i, x.len() as int).spec_over(g.rows[i][i]))
}

/// The precision of a step from `x` to `next`: the largest magnitude of a change.
pub open spec fn precision<T: Scalar>(next: Seq<T>, x: Seq<T>) -> T {
    largest(differences(next, x), differences(next, x).len() as int)
}

/// The estimates and precisions of the iteration from `x`: it stops behind the first
/// step whose precision is below `epsilon`, and after `limit` steps at the latest.
pub open spec fn iterates<T: Scalar>(
    g: Grid<T>,
    b: Seq<T>,
    x: Seq<T>,
    epsilon: T,
    limit: nat,
) -> Seq<(Seq<T>, T)>
    decreases limit,
{
    if limit == 0 {
        Seq::empty()
    } else {
        let next = next_estimate(g, b, x);
        let reached = precision(next, x);
        if reached.spec_below(epsilon) {
            seq![(next, reached)]
        } else {
            seq![(next, reached)] + iterates(g, b, next, epsilon, (limit - 1) as nat)
        }
    }
}

/// The trace as a sequence of estimates and precisions.
pub open spec fn trace_view<T>(trace: Seq<(Vec<T>, T)>) -> Seq<(Seq<T>, T)> {
    Seq::new(trace.len(), |k: int| (trace[k].0@, trace[k].1))
}

/// One step of the iteration: the next estimate, computed from `x` alone.
pub fn step<M: Matrix>(x: &Vec<M::Item>, m: &M, b: &Vec<M::Item>) -> (next: Vec<M::Item>) where
    M::Item: Scalar,

    requires
        m.wf(),
        b@.len() == x@.len(),
        x@.len() <= m.grid().height(),
        x@.len() <= m.grid().width,
    ensures
        next@ == next_estimate(m.grid(), b@, x@),
{
    let count = x.len();
    let mut next: Vec<M::Item> = Vec::new();
    let mut i: usize = 0;
    while i < count
        invariant
            m.wf(),
            count == x@.len(),
            b@.len() == count,
            count <= m.grid().height(),
            count <= m.grid().width,
            i <= count,
            next@.len() == i,
            forall|k: int| 0 <= k < i ==> next@[k] == next_estimate(m.grid(), b@, x@)[k],
        decreases count - i,
    {
        let mut rest = b[i];
        let mut j: usize = 0;
        while j < count
            invariant
                m.wf(),
                count == x@.len(),
                b@.len() == count,
                count <= m.grid().height(),
                count <= m.grid().width,
                i < count,
                j <= count,
                rest == residue(m.grid(), b@, x@, i as int, j as int),
            decreases count - j,
        {
            if j != i {
                match m.at(i, j) {
                    Some(value) => {
                        rest = rest.minus(value.times(x[j]));
                    },
                    None => {},
                }
            }
            j += 1;
        }
        let diag = match m.at(i, i) {
            Some(value) => *value,
            None => M::Item::one(),
        };
        next.push(rest.over(diag));
        i += 1;
    }
    proof {
        assert(next@ =~= next_estimate(m.grid(), b@, x@));
    }
    next
}

/// Iterates from the estimate in `x` until a step changes no entry by `epsilon` or
/// more, or until `limit` steps are made. `x` ends as the last estimate; the
/// estimate and the precision of every step are returned in order.
///
/// The system has as many equations as `x` has entries, at least one; `m` holds its
/// coefficients in its leading rows and columns and `b` its right-hand sides.
pub fn iterate_on<M: Matrix>(
    x: &mut Vec<M::Item>,
    epsilon: M::Item,
    m: &M,
    b: &Vec<M::Item>,
    limit: usize,
) -> (trace: Vec<(Vec<M::Item>, M::Item)>) where M::Item: Scalar
    requires
        m.wf(),
        old(x)@.len() >= 1,
        b@.len() == old(x)@.len(),
        old(x)@.len() <= m.grid().height(),
        old(x)@.len() <= m.grid().width,
    ensures
        trace_view(trace@) == iterates(m.grid(), b@, old(x)@, epsilon, limit as nat),
        trace@.len() == 0 ==> final(x)@ == old(x)@,
        trace@.len() > 0 ==> final(x)@ == trace@.last().0@,
{
    let mut trace: Vec<(Vec<M::Item>, M::Item)> = Vec::new();
    let mut steps: usize = 0;
    while steps < limit
        invariant_except_break
            trace_view(trace@) + iterates(m.grid(), b@, x@, epsilon, (limit - steps) as nat)
                == iterates(m.grid(), b@, old(x)@, epsilon, limit as nat),
        invariant
            m.wf(),
            steps <= limit,
            x@.len() == old(x)@.len(),
            x@.len() >= 1,
            b@.len() == x@.len(),
            x@.len() <= m.grid().height(),
            x@.len() <= m.grid().width,
            trace@.len() == 0 ==> x@ == old(x)@,
            trace@.len() > 0 ==> x@ == trace@.last().0@,
        ensures
            trace_view(trace@) == iterates(m.grid(), b@, old(x)@, epsilon, limit as nat),
        decreases limit - steps,
    {
        let next = step(x, m, b);
        let reached = dx(&next, x);
        let ghost before = trace@;
        let ghost was = x@;
        let kept = duplicate(&next);
        trace.push((kept, reached));
        *x = next;
        steps += 1;
        proof {
            assert(kept@ == x@);
            assert(trace_view(trace@) =~= trace_view(before) + seq![(x@, reached)]);
            let tail = iterates(m.grid(), b@, was, epsilon, (limit - steps + 1) as nat);
            if reached.spec_below(epsilon) {
                assert(tail == seq![(x@, reached)]);
            } else {
                let rest = iterates(m.grid(), b@, x@, epsilon, (limit - steps) as nat);
                assert(tail == seq![(x@, reached)] + rest);
                assert(trace_view(trace@) + rest =~= trace_view(before) + tail);
            }
        }
        if reached.below(epsilon) {
            break ;
        }
    }
    proof {
        if steps == limit {
            assert(trace_view(trace@) + Seq::<(Seq<M::Item>, M::Item)>::empty() =~= trace_view(
                trace@,
            ));
        }
    }
    trace
}

} // verus!

//! A matrix read with rows and columns exchanged.

use crate::grid::Grid;
use crate::traits::Matrix;
use vstd::prelude::*;

verus! {

/// Wraps a matrix so that its rows are read as columns and its columns as rows.
pub struct Transposed<T> {
    origin: T,
}

impl<M: Matrix> Transposed<M> {
    /// The matrix inside.
    pub closed spec fn origin(&self) -> M {
        self.origin
    }

    pub fn new(origin: M) -> (made: Transposed<M>)
        ensures
            made.origin() == origin,
    {
        Transposed { origin }
    }
}

impl<M: Matrix> View for Transposed<M> {
    type V = Grid<M::Item>;

    /// The matrix as it reads: its grid.
    open spec fn view(&self) -> Grid<M::Item> {
        self.grid()
    }
}

impl<M: Matrix> Matrix for Transposed<M> {
    type Item = M::Item;

    open spec fn wf(&self) -> bool {
        self.origin().wf()
    }

    open spec fn grid(&self) -> Grid<M::Item> {
        self.origin().grid().transposed()
    }

    proof fn lemma_grid_wf(&self) {
        self.origin.lemma_grid_wf();
    }

    fn at(&self, row: usize, column: usize) -> (cell: Option<&M::Item>) {
        self.origin.at(column, row)
    }

    fn at_mut(&mut self, row: usize, column: usize) -> (cell: Option<&mut M::Item>) {
        proof {
            let before = self.origin.grid();
            self.origin.lemma_grid_wf();
            if before.holds(column as int, row as int) {
                assert forall|value: M::Item|
                    (#[trigger] before.set(column as int, row as int, value)).transposed()
                        == before.transposed().set(row as int, column as int, value) by {
                    before.lemma_transposed_set(column as int, row as int, value);
                }
            }
        }
        self.origin.at_mut(column, row)
    }

    fn height(&self) -> (height: usize) {
        self.origin.width()
    }

    fn width(&self) -> (width: usize) {
        self.origin.height()
    }

    fn swap_rows(&mut self, a: usize, b: usize) -> (done: Option<()>) {
        proof {
            self.origin.lemma_grid_wf();
        }
        let done = self.origin.swap_columns(a, b);
        proof {
            if done is Some {
                let before = old(self).origin.grid();
                let target = before.transposed().swap_rows(a as int, b as int);
                assert forall|i: int| 0 <= i < target.rows.len() implies self.grid().rows[i]
                    =~= target.rows[i] by {
                    assert forall|j: int| 0 <= j < before.height() implies
                        #[trigger] before.rows[j].len() == before.width by {}
                }
                assert(self.grid().rows =~= target.rows);
            }
        }
        done
    }

    fn swap_columns(&mut self, a: usize, b: usize) -> (done: Option<()>) {
        proof {
            self.origin.lemma_grid_wf();
        }
        let done = self.origin.swap_rows(a, b);
        proof {
            if done is Some {
                let before = old(self).origin.grid();
                let target = before.transposed().swap_columns(a as int, b as int);
                assert forall|i: int| 0 <= i < target.rows.len() implies self.grid().rows[i]
                    =~= target.rows[i] by {
                    assert forall|j: int| 0 <= j < before.height() implies
                        #[trigger] before.rows[j].len() == before.width by {}
                }
                assert(self.grid().rows =~= target.rows);
            }
        }
        done
    }
}

} // verus!

use matrices::single::{Gauss, Matrix, State};
use matrices::Scalar;

/// Double precision numbers as the cells of a matrix.
#[derive(Debug, Clone, Copy, PartialEq)]
struct F(f64);

impl Scalar for F {
    fn zero() -> F {
        F(0.0)
    }

    fn one() -> F {
        F(1.0)
    }

    fn is_zero(self) -> bool {
        self.0 == 0.0
    }

    fn plus(self, other: F) -> F {
        F(self.0 + other.0)
    }

    fn minus(self, other: F) -> F {
        F(self.0 - other.0)
    }

    fn times(self, other: F) -> F {
        F(self.0 * other.0)
    }

    fn over(self, other: F) -> F {
        F(self.0 / other.0)
    }

    fn negated(self) -> F {
        F(-self.0)
    }

    fn magnitude(self) -> F {
        F(self.0.abs())
    }

    fn exceeds(self, other: F) -> bool {
        self.0.total_cmp(&other.0) == std::cmp::Ordering::Greater
    }

    fn below(self, other: F) -> bool {
        self.0 < other.0
    }

    fn spec_zero() -> F {
        F::zero()
    }

    fn spec_one() -> F {
        F::one()
    }

    fn spec_is_zero(self) -> bool {
        self.is_zero()
    }

    fn spec_plus(self, other: F) -> F {
        self.plus(other)
    }

    fn spec_minus(self, other: F) -> F {
        self.minus(other)
    }

    fn spec_times(self, other: F) -> F {
        self.times(other)
    }

    fn spec_over(self, other: F) -> F {
        self.over(other)
    }

    fn spec_negated(self) -> F {
        self.negated()
    }

    fn spec_magnitude(self) -> F {
        self.magnitude()
    }

    fn spec_exceeds(self, other: F) -> bool {
        self.exceeds(other)
    }

    fn spec_below(self, other: F) -> bool {
        self.below(other)
    }
}

fn floats(values: Vec<f64>) -> Vec<F> {
    values.into_iter().map(F).collect()
}

fn cells(m: &Matrix<F>) -> Vec<Vec<f64>> {
    let mut all = Vec::new();
    for i in 0..m.height() {
        let mut row = Vec::new();
        for j in 0..m.width() {
            row.push(m.at(i, j).0);
        }
        all.push(row);
    }
    all
}

fn augmented_identity(n: usize) -> Matrix<F> {
    Matrix::new(n, n + 1, |i, j| if i == j { F(1.0) } else { F(0.0) })
}

#[test]
fn new_fills_row_by_row() {
    let m = Matrix::new(2, 3, |i, j| 10 * i + j);
    assert_eq!(m.height(), 2);
    assert_eq!(m.width(), 3);
    assert_eq!(*m.at(0, 0), 0);
    assert_eq!(*m.at(0, 2), 2);
    assert_eq!(*m.at(1, 0), 10);
    assert_eq!(*m.at(1, 2), 12);
    assert!(m.safe(1, 2));
    assert!(!m.safe(2, 0));
    assert!(!m.safe(0, 3));
}

#[test]
fn at_mut_writes_one_cell() {
    let mut m = Matrix::new(2, 2, |i, j| 10 * i + j);
    *m.at_mut(1, 0) = 7;
    assert_eq!(*m.at(0, 0), 0);
    assert_eq!(*m.at(0, 1), 1);
    assert_eq!(*m.at(1, 0), 7);
    assert_eq!(*m.at(1, 1), 11);
}

#[test]
fn swaps_move_whole_rows_and_columns() {
    let mut m = Matrix::new(3, 2, |i, j| F((10 * i + j) as f64));
    m.swap_rows(0, 2);
    assert_eq!(cells(&m), vec![vec![20.0, 21.0], vec![10.0, 11.0], vec![0.0, 1.0]]);
    m.swap_cols(0, 1);
    assert_eq!(cells(&m), vec![vec![21.0, 20.0], vec![11.0, 10.0], vec![1.0, 0.0]]);
    m.swap_rows(1, 1);
    m.swap_cols(0, 0);
    assert_eq!(cells(&m), vec![vec![21.0, 20.0], vec![11.0, 10.0], vec![1.0, 0.0]]);
}

#[test]
fn e_is_the_identity() {
    let e: Matrix<F> = Matrix::e(3);
    assert_eq!(
        cells(&e),
        vec![vec![1.0, 0.0, 0.0], vec![0.0, 1.0, 0.0], vec![0.0, 0.0, 1.0]]
    );
    let none: Matrix<F> = Matrix::e(0);
    assert_eq!(none.height(), 0);
    assert_eq!(none.width(), 0);
}

#[test]
fn the_first_of_equal_maxima_is_chosen() {
    let m = Matrix::from_iter(floats(vec![
        1.0, 5.0, 5.0, 2.0, //
        7.0, 3.0, 7.0, 0.0, //
        7.0, 9.0, 1.0, 9.0, //
    ]));
    assert_eq!(m.height(), 3);
    assert_eq!(m.width(), 4);
    assert_eq!(m.max_in_row(0, None), 1);
    assert_eq!(m.max_in_row(0, Some(2)), 2);
    assert_eq!(m.max_in_row(2, Some(1)), 1);
    assert_eq!(m.max_in_row(1, Some(3)), 3);
    assert_eq!(m.max_in_row(1, Some(9)), 9);
    assert_eq!(m.max_in_col(0, None), 1);
    assert_eq!(m.max_in_col(0, Some(2)), 2);
    assert_eq!(m.max_in_col(1, Some(1)), 2);
    assert_eq!(m.max_in_col(2, None), 1);
    assert_eq!(m.max_in_col(3, Some(5)), 5);
}

#[test]
fn from_iter_takes_as_many_rows_as_fit() {
    let exact = Matrix::from_iter(vec![1, 2, 3, 4, 5, 6]);
    assert_eq!((exact.height(), exact.width()), (2, 3));
    assert_eq!(*exact.at(1, 0), 4);
    let more = Matrix::from_iter(vec![1, 2, 3, 4, 5, 6, 7, 8]);
    assert_eq!((more.height(), more.width()), (2, 3));
    assert_eq!(*more.at(1, 2), 6);
    let few = Matrix::from_iter(vec![1]);
    assert_eq!((few.height(), few.width()), (0, 1));
    let none = Matrix::<u8>::from_iter(Vec::new());
    assert_eq!((none.height(), none.width()), (0, 1));
}

#[test]
fn try_from_wants_one_column_more_than_rows() {
    let square: Matrix<F> = Matrix::e(2);
    let back = match Gauss::try_from(square) {
        Ok(_) => panic!("a square matrix is no augmented system"),
        Err(back) => back,
    };
    assert_eq!(cells(&back), vec![vec![1.0, 0.0], vec![0.0, 1.0]]);
    assert!(Gauss::try_from(augmented_identity(2)).is_ok());
    let wide = Matrix::new(1, 3, |_, _| F(1.0));
    assert!(Gauss::try_from(wide).is_err());
}

#[test]
fn the_identity_has_determinant_one_and_no_exchange() {
    for n in 0..6 {
        let mut g = Gauss::try_from(augmented_identity(n)).ok().unwrap();
        g.solve();
        let (a, x, det, trace) = g.unbox();
        assert_eq!(det, Some(F(1.0)));
        assert_eq!(x, Some(floats(vec![0.0; n])));
        assert_eq!(cells(&a), cells(&augmented_identity(n)));
        let swapped = trace.iter().filter(|s| matches!(s, State::Swapped { .. })).count();
        assert_eq!(swapped, 0);
        let mains = trace.iter().filter(|s| matches!(s, State::Main { .. })).count();
        assert_eq!(mains, n);
        assert_eq!(trace.len(), 2 * n + 2);
        assert!(matches!(trace.first(), Some(State::Created { .. })));
        assert!(matches!(trace.last(), Some(State::Solved { .. })));
    }
}

#[test]
fn a_session_records_what_it_did() {
    let m = Matrix::from_iter(floats(vec![
        1.0, 2.0, 4.0, //
        2.0, 8.0, 4.0, //
    ]));
    let mut g = Gauss::try_from(m).ok().unwrap();
    g.solve();
    let (a, x, det, trace) = g.unbox();

    assert_eq!(cells(&a), vec![vec![1.0, 4.0, 2.0], vec![0.0, 1.0, -1.0]]);
    assert_eq!(x, Some(floats(vec![-2.0, -1.0])));
    assert_eq!(det, Some(F(4.0)));

    assert_eq!(trace.len(), 7);
    match &trace[0] {
        State::Created { matrix } => {
            assert_eq!(cells(matrix), vec![vec![1.0, 2.0, 4.0], vec![2.0, 8.0, 4.0]])
        }
        _ => panic!("the first entry is the matrix"),
    }
    match &trace[1] {
        State::Main { iter, row, column, value } => {
            assert_eq!((*iter, *row, *column, *value), (0, 1, 0, F(2.0)))
        }
        _ => panic!("the second entry is a pivot"),
    }
    match &trace[2] {
        State::Swapped { iter, a, b, n } => assert_eq!((*iter, *a, *b, *n), (0, 1, 0, 2)),
        _ => panic!("the third entry is an exchange"),
    }
    match &trace[3] {
        State::Modified { iter, matrix } => {
            assert_eq!(*iter, 0);
            assert_eq!(cells(matrix), vec![vec![1.0, 4.0, 2.0], vec![0.0, -2.0, 2.0]]);
        }
        _ => panic!("the fourth entry is the matrix after the step"),
    }
    match &trace[4] {
        State::Main { iter, row, column, value } => {
            assert_eq!((*iter, *row, *column, *value), (1, 1, 1, F(-2.0)))
        }
        _ => panic!("the fifth entry is a pivot"),
    }
    match &trace[5] {
        State::Modified { iter, matrix } => {
            assert_eq!(*iter, 1);
            assert_eq!(cells(matrix), vec![vec![1.0, 4.0, 2.0], vec![0.0, 1.0, -1.0]]);
        }
        _ => panic!("the sixth entry is the matrix after the step"),
    }
    match &trace[6] {
        State::Solved { x, det } => {
            assert_eq!(x, &floats(vec![-2.0, -1.0]));
            assert_eq!(*det, F(4.0));
        }
        _ => panic!("the last entry is the result"),
    }
}

#[test]
fn every_exchange_turns_the_sign() {
    let rows = vec![
        vec![0.0, 0.0, 1.0, 0.0],
        vec![1.0, 0.0, 0.0, 0.0],
        vec![0.0, 1.0, 0.0, 0.0],
    ];
    let m = Matrix::new(3, 4, |i, j| F(rows[i][j]));
    let mut g = Gauss::try_from(m).ok().unwrap();
    g.solve();
    let (_, _, det, trace) = g.unbox();
    let swapped = trace.iter().filter(|s| matches!(s, State::Swapped { .. })).count();
    assert_eq!(swapped, 2);
    assert_eq!(det, Some(F(1.0)));

    let rows = vec![vec![0.0, 2.0, 0.0], vec![4.0, 0.0, 0.0]];
    let m = Matrix::new(2, 3, |i, j| F(rows[i][j]));
    let mut g = Gauss::try_from(m).ok().unwrap();
    g.solve();
    let (_, _, det, trace) = g.unbox();
    let swapped = trace.iter().filter(|s| matches!(s, State::Swapped { .. })).count();
    assert_eq!(swapped, 1);
    assert_eq!(det, Some(F(-8.0)));
}

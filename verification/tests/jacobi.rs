use matrices::jacobi::{converges_for, dx, iterate_on, step};
use matrices::{Array2d, Scalar};

/// Double precision numbers as the cells of a matrix.
#[derive(Debug, Clone, Copy, PartialEq)]
struct F(f64);

impl Scalar for F {
    fn zero() -> F {
        F(0.0)
    }

    fn one() -> F {
        F(1.0)
    }

    fn is_zero(self) -> bool {
        self.0 == 0.0
    }

    fn plus(self, other: F) -> F {
        F(self.0 + other.0)
    }

    fn minus(self, other: F) -> F {
        F(self.0 - other.0)
    }

    fn times(self, other: F) -> F {
        F(self.0 * other.0)
    }

    fn over(self, other: F) -> F {
        F(self.0 / other.0)
    }

    fn negated(self) -> F {
        F(-self.0)
    }

    fn magnitude(self) -> F {
        F(self.0.abs())
    }

    fn exceeds(self, other: F) -> bool {
        self.0.total_cmp(&other.0) == std::cmp::Ordering::Greater
    }

    fn below(self, other: F) -> bool {
        self.0 < other.0
    }

    fn spec_zero() -> F {
        F::zero()
    }

    fn spec_one() -> F {
        F::one()
    }

    fn spec_is_zero(self) -> bool {
        self.is_zero()
    }

    fn spec_plus(self, other: F) -> F {
        self.plus(other)
    }

    fn spec_minus(self, other: F) -> F {
        self.minus(other)
    }

    fn spec_times(self, other: F) -> F {
        self.times(other)
    }

    fn spec_over(self, other: F) -> F {
        self.over(other)
    }

    fn spec_negated(self) -> F {
        self.negated()
    }

    fn spec_magnitude(self) -> F {
        self.magnitude()
    }

    fn spec_exceeds(self, other: F) -> bool {
        self.exceeds(other)
    }

    fn spec_below(self, other: F) -> bool {
        self.below(other)
    }
}

fn floats(values: Vec<f64>) -> Vec<F> {
    values.into_iter().map(F).collect()
}

fn plain(values: &[F]) -> Vec<f64> {
    values.iter().map(|v| v.0).collect()
}

#[test]
fn the_worked_example_does_not_converge() {
    let m = Array2d::try_from(
        3,
        4,
        floats(vec![
            3.0, -1.0, 1.0, 1.0, //
            1.0, 5.0, -1.0, 8.0, //
            1.0, -1.0, 5.0, 10.0, //
        ]),
    )
    .unwrap();
    assert!(!converges_for(&m));
}

#[test]
fn a_dominant_matrix_converges() {
    let m = Array2d::try_from(
        3,
        3,
        floats(vec![
            4.0, -1.0, 1.0, //
            1.0, -5.0, 2.0, //
            0.0, 2.0, 3.0, //
        ]),
    )
    .unwrap();
    assert!(converges_for(&m));
}

#[test]
fn a_row_at_the_boundary_counts_as_dominant() {
    let at = Array2d::try_from(2, 2, floats(vec![2.0, -2.0, 1.0, 4.0])).unwrap();
    assert!(converges_for(&at));
    let past = Array2d::try_from(2, 2, floats(vec![2.0, -2.5, 1.0, 4.0])).unwrap();
    assert!(!converges_for(&past));
    let second = Array2d::try_from(2, 2, floats(vec![4.0, 1.0, -3.0, 2.0])).unwrap();
    assert!(!converges_for(&second));
    let none = Array2d::try_from(0, 0, floats(vec![])).unwrap();
    assert!(converges_for(&none));
}

#[test]
fn dx_is_the_largest_change() {
    let a = floats(vec![1.0, 5.0, -2.0]);
    let b = floats(vec![1.5, 3.0, 2.0]);
    assert_eq!(dx(&a, &b), F(4.0));
    assert_eq!(dx(&b, &a), F(4.0));
    let short = floats(vec![3.0, 3.5]);
    assert_eq!(dx(&a, &short), F(2.0));
    assert_eq!(dx(&floats(vec![2.0]), &floats(vec![2.0])), F(0.0));
}

#[test]
fn step_reads_the_previous_estimate_only() {
    let m = Array2d::try_from(2, 2, floats(vec![2.0, 1.0, 1.0, 4.0])).unwrap();
    let b = floats(vec![4.0, 8.0]);
    let x = floats(vec![2.0, 4.0]);
    let next = step(&x, &m, &b);
    assert_eq!(plain(&next), vec![0.0, 1.5]);
    assert_eq!(plain(&x), vec![2.0, 4.0]);
}

#[test]
fn iterate_on_stops_below_epsilon() {
    let m = Array2d::try_from(2, 2, floats(vec![2.0, 0.0, 0.0, 4.0])).unwrap();
    let b = floats(vec![4.0, 8.0]);
    let mut x = floats(vec![0.0, 0.0]);
    let trace = iterate_on(&mut x, F(0.5), &m, &b, 100);
    assert_eq!(plain(&x), vec![2.0, 2.0]);
    assert_eq!(trace.len(), 2);
    assert_eq!(plain(&trace[0].0), vec![2.0, 2.0]);
    assert_eq!(trace[0].1, F(2.0));
    assert_eq!(plain(&trace[1].0), vec![2.0, 2.0]);
    assert_eq!(trace[1].1, F(0.0));
}

#[test]
fn iterate_on_stops_at_the_limit() {
    let m = Array2d::try_from(2, 2, floats(vec![1.0, 2.0, 2.0, 1.0])).unwrap();
    let b = floats(vec![1.0, 1.0]);
    let mut x = floats(vec![0.0, 0.0]);
    let trace = iterate_on(&mut x, F(0.001), &m, &b, 3);
    assert_eq!(trace.len(), 3);
    assert_eq!(plain(&trace[0].0), vec![1.0, 1.0]);
    assert_eq!(plain(&trace[1].0), vec![-1.0, -1.0]);
    assert_eq!(plain(&trace[2].0), vec![3.0, 3.0]);
    assert_eq!(trace[2].1, F(4.0));
    assert_eq!(plain(&x), vec![3.0, 3.0]);

    let mut kept = floats(vec![7.0, 8.0]);
    let none = iterate_on(&mut kept, F(0.001), &m, &b, 0);
    assert!(none.is_empty());
    assert_eq!(plain(&kept), vec![7.0, 8.0]);
}

#[test]
fn iterate_on_approaches_the_solution_of_a_dominant_system() {
    let m = Array2d::try_from(2, 2, floats(vec![4.0, 1.0, 2.0, 5.0])).unwrap();
    let b = floats(vec![9.0, 12.0]);
    assert!(converges_for(&m));
    let mut x = floats(vec![0.0, 0.0]);
    let trace = iterate_on(&mut x, F(1e-9), &m, &b, 1000);
    assert!(trace.len() < 1000);
    assert!(trace.last().unwrap().1 .0 < 1e-9);
    assert!((x[0].0 - 11.0 / 6.0).abs() < 1e-8);
    assert!((x[1].0 - 5.0 / 3.0).abs() < 1e-8);
    for pair in trace.windows(2) {
        assert!(pair[1].1 .0 <= pair[0].1 .0);
    }
}

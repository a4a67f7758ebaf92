use matrices::gauss::{calc_l, calc_u, normalize};
use matrices::{inf_norm, multiply_diagonal, Array2d, Iteratable, Matrix, Meow, Scalar};

/// Double precision numbers as the cells of a matrix.
#[derive(Debug, Clone, Copy, PartialEq)]
struct F(f64);

impl Scalar for F {
    fn zero() -> F {
        F(0.0)
    }

    fn one() -> F {
        F(1.0)
    }

    fn is_zero(self) -> bool {
        self.0 == 0.0
    }

    fn plus(self, other: F) -> F {
        F(self.0 + other.0)
    }

    fn minus(self, other: F) -> F {
        F(self.0 - other.0)
    }

    fn times(self, other: F) -> F {
        F(self.0 * other.0)
    }

    fn over(self, other: F) -> F {
        F(self.0 / other.0)
    }

    fn negated(self) -> F {
        F(-self.0)
    }

    fn magnitude(self) -> F {
        F(self.0.abs())
    }

    fn exceeds(self, other: F) -> bool {
        self.0.total_cmp(&other.0) == std::cmp::Ordering::Greater
    }

    fn below(self, other: F) -> bool {
        self.0 < other.0
    }

    fn spec_zero() -> F {
        F::zero()
    }

    fn spec_one() -> F {
        F::one()
    }

    fn spec_is_zero(self) -> bool {
        self.is_zero()
    }

    fn spec_plus(self, other: F) -> F {
        self.plus(other)
    }

    fn spec_minus(self, other: F) -> F {
        self.minus(other)
    }

    fn spec_times(self, other: F) -> F {
        self.times(other)
    }

    fn spec_over(self, other: F) -> F {
        self.over(other)
    }

    fn spec_negated(self) -> F {
        self.negated()
    }

    fn spec_magnitude(self) -> F {
        self.magnitude()
    }

    fn spec_exceeds(self, other: F) -> bool {
        self.exceeds(other)
    }

    fn spec_below(self, other: F) -> bool {
        self.below(other)
    }
}

fn floats(values: Vec<f64>) -> Vec<F> {
    values.into_iter().map(F).collect()
}

fn rows_of<M: Matrix<Item = F>>(m: &M) -> Vec<Vec<f64>> {
    let mut all = Vec::new();
    let mut rows = m.rows();
    while let Some(mut row) = rows.next() {
        let mut cells = Vec::new();
        while let Some(cell) = row.next() {
            cells.push(cell.0);
        }
        all.push(cells);
    }
    all
}

#[test]
fn l_good_diagonal() {
    let mut a = Array2d::try_from(
        4,
        4,
        floats(vec![
            1.0, 2.0, 3.0, 4.0, 2.0, 1.0, 2.0, 3.0, 3.0, 2.0, 1.0, 2.0, 4.0, 3.0, 2.0, 1.0,
        ]),
    )
    .unwrap();
    calc_l(&mut a);

    for (i, row) in rows_of(&a).into_iter().enumerate().skip(1) {
        for cell in row.into_iter().take(i) {
            assert_eq!(cell, 0.0);
        }
    }
}

#[test]
fn l_bad_diagonal() {
    let mut a = Array2d::try_from(
        4,
        4,
        floats(vec![
            1.0, 2.0, 3.0, 4.0, 2.0, 0.0, 2.0, 3.0, 3.0, 2.0, 0.0, 2.0, 4.0, 3.0, 2.0, 0.0,
        ]),
    )
    .unwrap();
    calc_l(&mut a);

    for (i, row) in rows_of(&a).into_iter().enumerate().skip(1) {
        for cell in row.into_iter().take(i) {
            assert_eq!(cell, 0.0);
        }
    }
}

#[test]
fn u_good_diagonal() {
    let mut a = Array2d::try_from(
        4,
        4,
        floats(vec![
            1.0, 2.0, 3.0, 4.0, 2.0, 1.0, 2.0, 3.0, 3.0, 2.0, 1.0, 2.0, 4.0, 3.0, 2.0, 1.0,
        ]),
    )
    .unwrap();
    calc_u(&mut a);

    for (i, row) in rows_of(&a).into_iter().enumerate().rev().skip(1) {
        for cell in row.into_iter().skip(i + 1) {
            assert_eq!(cell, 0.0);
        }
    }
}

#[test]
fn u_bad_diagonal() {
    let mut a = Array2d::try_from(
        4,
        4,
        floats(vec![
            1.0, 2.0, 3.0, 4.0, 2.0, 0.0, 2.0, 3.0, 3.0, 2.0, 0.0, 2.0, 4.0, 3.0, 2.0, 0.0,
        ]),
    )
    .unwrap();
    calc_u(&mut a);

    for (i, row) in rows_of(&a).into_iter().enumerate().rev().skip(1) {
        for cell in row.into_iter().skip(i + 1) {
            assert_eq!(cell, 0.0);
        }
    }
}

#[test]
fn l_with_meow() {
    let a = Array2d::try_from(
        4,
        4,
        floats(vec![
            1.0, 2.0, 3.0, 4.0, 2.0, 1.0, 2.0, 3.0, 3.0, 2.0, 1.0, 2.0, 4.0, 3.0, 2.0, 1.0,
        ]),
    )
    .unwrap();
    let b = Array2d::try_from(4, 1, floats(vec![1.0, 1.0, 1.0, 1.0])).unwrap();
    let mut m = Meow::from(a);
    m.eat(b).unwrap();

    calc_l(&mut m);

    for (i, row) in rows_of(&m).into_iter().enumerate().skip(1) {
        for cell in row.into_iter().take(i) {
            assert_eq!(cell, 0.0);
        }
    }
}

#[test]
fn u_with_meow() {
    let a = Array2d::try_from(
        4,
        4,
        floats(vec![
            1.0, 2.0, 3.0, 4.0, 2.0, 1.0, 2.0, 3.0, 3.0, 2.0, 1.0, 2.0, 4.0, 3.0, 2.0, 1.0,
        ]),
    )
    .unwrap();
    let b = Array2d::try_from(4, 1, floats(vec![1.0, 1.0, 1.0, 1.0])).unwrap();
    let mut m = Meow::from(a);
    m.eat(b).unwrap();

    calc_u(&mut m);

    for (i, row) in rows_of(&m).into_iter().enumerate().skip(1) {
        for cell in row.into_iter().take(4).skip(i + 1) {
            assert_eq!(cell, 0.0);
        }
    }
}

fn gen_a(i: usize, j: usize) -> i64 {
    if i == 0 && j == 0 {
        1
    } else if i == j {
        0
    } else if i > j {
        -((j + 1) as i64)
    } else {
        // if j > i
        (j + 1) as i64
    }
}

#[test]
fn l_my_example() {
    let mut a = Array2d::gen(5, 5, |i, j| F(gen_a(i, j) as f64));
    calc_l(&mut a);

    let expected = Array2d::try_from(
        5,
        5,
        floats(vec![
            1.0, 2.0, 3.0, 4.0, 5.0, //
            0.0, 2.0, 6.0, 8.0, 10.0, //
            0.0, 0.0, 3.0, 8.0, 10.0, //
            0.0, 0.0, 0.0, 4.0, 10.0, //
            0.0, 0.0, 0.0, 0.0, 5.0, //
        ]),
    )
    .unwrap();

    assert_eq!(a, expected);
}

#[test]
fn calc_l_gives_exact_values() {
    let mut a = Array2d::try_from(2, 3, floats(vec![2.0, 4.0, 6.0, 1.0, 3.0, 5.0])).unwrap();
    assert_eq!(calc_l(&mut a), Some(()));
    assert_eq!(rows_of(&a), vec![vec![2.0, 4.0, 6.0], vec![0.0, 1.0, 2.0]]);
}

#[test]
fn calc_l_brings_the_leading_row_up_when_the_diagonal_is_zero() {
    let mut a = Array2d::try_from(
        3,
        3,
        floats(vec![
            0.0, 1.0, 2.0, //
            4.0, 2.0, 0.0, //
            2.0, 2.0, 2.0, //
        ]),
    )
    .unwrap();
    assert_eq!(calc_l(&mut a), Some(()));
    assert_eq!(
        rows_of(&a),
        vec![vec![4.0, 2.0, 0.0], vec![0.0, 1.0, 2.0], vec![0.0, 0.0, 0.0]]
    );
}

#[test]
fn calc_l_keeps_the_first_of_equal_leading_rows() {
    let mut a = Array2d::try_from(
        3,
        2,
        floats(vec![
            0.0, 1.0, //
            3.0, 2.0, //
            3.0, 5.0, //
        ]),
    )
    .unwrap();
    assert_eq!(calc_l(&mut a), None);
    assert_eq!(
        rows_of(&a),
        vec![vec![3.0, 2.0], vec![0.0, 1.0], vec![0.0, 0.0]]
    );
}

#[test]
fn a_tall_matrix_ends_the_passes_with_none() {
    let mut tall = Array2d::try_from(3, 2, floats(vec![1.0, 2.0, 3.0, 4.0, 5.0, 6.0])).unwrap();
    assert_eq!(calc_u(&mut tall), None);
    assert_eq!(
        rows_of(&tall),
        vec![vec![1.0, 2.0], vec![3.0, 4.0], vec![5.0, 6.0]]
    );
    assert_eq!(calc_l(&mut tall), None);
    assert_eq!(
        rows_of(&tall),
        vec![vec![1.0, 2.0], vec![0.0, -2.0], vec![0.0, 0.0]]
    );
    let mut none = Array2d::try_from(0, 0, floats(vec![])).unwrap();
    assert_eq!(calc_l(&mut none), Some(()));
    assert_eq!(calc_u(&mut none), Some(()));
}

#[test]
fn calc_u_gives_exact_values() {
    let mut a = Array2d::try_from(2, 3, floats(vec![2.0, 4.0, 6.0, 0.0, 2.0, 4.0])).unwrap();
    assert_eq!(calc_u(&mut a), Some(()));
    assert_eq!(rows_of(&a), vec![vec![2.0, 0.0, -2.0], vec![0.0, 2.0, 4.0]]);
}

#[test]
fn calc_u_brings_the_leading_row_down_when_the_diagonal_is_zero() {
    let mut a = Array2d::try_from(
        2,
        2,
        floats(vec![
            1.0, 4.0, //
            2.0, 0.0, //
        ]),
    )
    .unwrap();
    assert_eq!(calc_u(&mut a), Some(()));
    assert_eq!(rows_of(&a), vec![vec![2.0, 0.0], vec![1.0, 4.0]]);
}

#[test]
fn calc_u_on_a_singular_matrix_can_leave_the_upper_triangle() {
    let mut a = Array2d::try_from(
        3,
        3,
        floats(vec![
            1.0, 0.0, 0.0, //
            0.0, 0.0, 0.0, //
            0.0, 0.0, 1.0, //
        ]),
    )
    .unwrap();
    assert_eq!(calc_u(&mut a), Some(()));
    assert!(a.at(0, 2).unwrap().0.is_nan());
}

#[test]
fn normalize_divides_each_row_by_its_diagonal() {
    let mut a = Array2d::try_from(2, 3, floats(vec![2.0, 4.0, 6.0, 1.0, 4.0, 2.0])).unwrap();
    normalize(&mut a);
    assert_eq!(rows_of(&a), vec![vec![1.0, 2.0, 3.0], vec![0.25, 1.0, 0.5]]);
}

#[test]
fn the_passes_solve_a_system_and_invert_its_matrix() {
    let a = Array2d::try_from(2, 2, floats(vec![2.0, 1.0, 1.0, 1.0])).unwrap();
    let b = Array2d::try_from(2, 1, floats(vec![3.0, 2.0])).unwrap();
    let e = Array2d::gen(2, 2, |i, j| if i == j { F(1.0) } else { F(0.0) });
    let mut m = Meow::from(a);
    m.eat(b).expect("the heights agree");
    m.eat(e).expect("the heights agree");

    calc_l(&mut m).unwrap();
    calc_u(&mut m).unwrap();
    assert_eq!(multiply_diagonal(&m), F(1.0));
    normalize(&mut m);

    let x = m.calculate(1).unwrap();
    assert_eq!(rows_of(&x), vec![vec![1.0], vec![1.0]]);
    let inverse = m.calculate(2).unwrap();
    assert_eq!(rows_of(&inverse), vec![vec![1.0, -1.0], vec![-1.0, 2.0]]);
}

#[test]
fn multiply_diagonal_stops_where_the_diagonal_ends() {
    let wide = Array2d::try_from(2, 3, floats(vec![2.0, 9.0, 9.0, 9.0, 3.5, 9.0])).unwrap();
    assert_eq!(multiply_diagonal(&wide), F(7.0));
    let tall = Array2d::try_from(3, 1, floats(vec![-4.0, 9.0, 9.0])).unwrap();
    assert_eq!(multiply_diagonal(&tall), F(-4.0));
    let none = Array2d::try_from(0, 3, floats(vec![])).unwrap();
    assert_eq!(multiply_diagonal(&none), F(1.0));
}

#[test]
fn inf_norm_is_the_largest_row_sum_of_magnitudes() {
    let a = Array2d::try_from(3, 2, floats(vec![1.0, -2.0, -3.5, 1.0, 4.0, 0.25])).unwrap();
    assert_eq!(inf_norm(&a), F(4.5));
    let one = Array2d::try_from(1, 3, floats(vec![-1.0, -1.0, -1.0])).unwrap();
    assert_eq!(inf_norm(&one), F(3.0));
}

#[test]
fn calc_u_keeps_the_lowest_of_equal_leading_rows() {
    let mut a = Array2d::try_from(
        3,
        3,
        floats(vec![
            1.0, 0.0, 5.0, //
            0.0, 1.0, 5.0, //
            0.0, 0.0, 0.0, //
        ]),
    )
    .unwrap();
    assert_eq!(calc_u(&mut a), Some(()));
    assert_eq!(
        rows_of(&a),
        vec![vec![0.0, 0.0, 0.0], vec![0.0, 1.0, 0.0], vec![1.0, 0.0, 5.0]]
    );
}

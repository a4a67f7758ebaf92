use matrices::{Array2d, Iteratable, Matrix, Meow};

#[test]
fn meow_swap_rows_ok() {
    let size = 5;

    let mut m = Array2d::gen(size, size, |i, j| (i, j));

    m.swap_rows(0, 2);
    let m21034 = Array2d::try_from(
        size,
        size,
        vec![
            (2, 0),
            (2, 1),
            (2, 2),
            (2, 3),
            (2, 4),
            (1, 0),
            (1, 1),
            (1, 2),
            (1, 3),
            (1, 4),
            (0, 0),
            (0, 1),
            (0, 2),
            (0, 3),
            (0, 4),
            (3, 0),
            (3, 1),
            (3, 2),
            (3, 3),
            (3, 4),
            (4, 0),
            (4, 1),
            (4, 2),
            (4, 3),
            (4, 4),
        ],
    )
    .expect("Wrong dimensions for m21034");
    assert_eq!(m, m21034, "Row swap #0 (0, 2) failed");

    m.swap_rows(2, 3);
    let m21304 = Array2d::try_from(
        size,
        size,
        vec![
            (2, 0),
            (2, 1),
            (2, 2),
            (2, 3),
            (2, 4),
            (1, 0),
            (1, 1),
            (1, 2),
            (1, 3),
            (1, 4),
            (3, 0),
            (3, 1),
            (3, 2),
            (3, 3),
            (3, 4),
            (0, 0),
            (0, 1),
            (0, 2),
            (0, 3),
            (0, 4),
            (4, 0),
            (4, 1),
            (4, 2),
            (4, 3),
            (4, 4),
        ],
    )
    .expect("Wrong dimensions for m21304");
    assert_eq!(m, m21304, "Row swap #1 (2, 3) failed");

    m.swap_rows(0, 2);
    let m31204 = Array2d::try_from(
        size,
        size,
        vec![
            (3, 0),
            (3, 1),
            (3, 2),
            (3, 3),
            (3, 4),
            (1, 0),
            (1, 1),
            (1, 2),
            (1, 3),
            (1, 4),
            (2, 0),
            (2, 1),
            (2, 2),
            (2, 3),
            (2, 4),
            (0, 0),
            (0, 1),
            (0, 2),
            (0, 3),
            (0, 4),
            (4, 0),
            (4, 1),
            (4, 2),
            (4, 3),
            (4, 4),
        ],
    )
    .expect("Wrong dimensions for m31204");
    assert_eq!(m, m31204, "Row swap #2 (0, 2) failed");

    m.swap_rows(0, 3);
    let m01234 = Array2d::gen(size, size, |i, j| (i, j));
    assert_eq!(m, m01234, "Row swap #3 (0, 3) failed");
}

#[test]
fn meow_swap_columns_ok() {
    let size = 5;

    let mut m = Array2d::gen(size, size, |i, j| (i, j));

    m.swap_columns(0, 2);
    let m21034 = Array2d::try_from(
        size,
        size,
        vec![
            (0, 2),
            (0, 1),
            (0, 0),
            (0, 3),
            (0, 4),
            (1, 2),
            (1, 1),
            (1, 0),
            (1, 3),
            (1, 4),
            (2, 2),
            (2, 1),
            (2, 0),
            (2, 3),
            (2, 4),
            (3, 2),
            (3, 1),
            (3, 0),
            (3, 3),
            (3, 4),
            (4, 2),
            (4, 1),
            (4, 0),
            (4, 3),
            (4, 4),
        ],
    )
    .expect("Wrong dimensions for m21034");
    assert_eq!(m, m21034, "Column swap #0 (0, 2) failed");

    m.swap_columns(2, 3);
    let m21304 = Array2d::try_from(
        size,
        size,
        vec![
            (0, 2),
            (0, 1),
            (0, 3),
            (0, 0),
            (0, 4),
            (1, 2),
            (1, 1),
            (1, 3),
            (1, 0),
            (1, 4),
            (2, 2),
            (2, 1),
            (2, 3),
            (2, 0),
            (2, 4),
            (3, 2),
            (3, 1),
            (3, 3),
            (3, 0),
            (3, 4),
            (4, 2),
            (4, 1),
            (4, 3),
            (4, 0),
            (4, 4),
        ],
    )
    .expect("Wrong dimensions for m21304");
    assert_eq!(m, m21304, "Column swap #1 (2, 3) failed");

    m.swap_columns(0, 2);
    let m31204 = Array2d::try_from(
        size,
        size,
        vec![
            (0, 3),
            (0, 1),
            (0, 2),
            (0, 0),
            (0, 4),
            (1, 3),
            (1, 1),
            (1, 2),
            (1, 0),
            (1, 4),
            (2, 3),
            (2, 1),
            (2, 2),
            (2, 0),
            (2, 4),
            (3, 3),
            (3, 1),
            (3, 2),
            (3, 0),
            (3, 4),
            (4, 3),
            (4, 1),
            (4, 2),
            (4, 0),
            (4, 4),
        ],
    )
    .expect("Wrong dimensions for m31204");
    assert_eq!(m, m31204, "Column swap #2 (0, 2) failed");

    m.swap_columns(0, 3);
    let m01234 = Array2d::gen(size, size, |i, j| (i, j));
    assert_eq!(m, m01234, "Column swap #3 (0, 3) failed");
}

#[test]
fn meow_rows_access_ok() {
    let a = Array2d::gen(3, 3, |i, j| (i, j));
    let b = Array2d::gen(3, 3, |i, j| (i, j + 3));
    let mut m = Meow::from(a);
    m.eat(b).unwrap();

    let mut rows = m.rows();
    let mut row_id = 0;
    while let Some(mut row) = rows.next() {
        println!("{} {:?}", row_id, row.size_hint());
        let mut column_id = 0;
        while let Some(&(i, j)) = row.next() {
            assert_eq!(i, row_id);
            assert_eq!(j, column_id);
            column_id += 1;
        }
        assert_eq!(column_id, 6);
        row_id += 1;
    }
    assert_eq!(row_id, 3);
}

#[test]
fn meow_columns_access_ok() {
    let a = Array2d::gen(3, 3, |i, j| (i, j));
    let b = Array2d::gen(3, 3, |i, j| (i, j + 3));
    let mut m = Meow::from(a);
    m.eat(b).unwrap();

    let mut columns = m.columns();
    let mut column_id = 0;
    while let Some(mut column) = columns.next() {
        let mut row_id = 0;
        while let Some(&(i, j)) = column.next() {
            assert_eq!(i, row_id);
            assert_eq!(j, column_id);
            row_id += 1;
        }
        assert_eq!(row_id, 3);
        column_id += 1;
    }
    assert_eq!(column_id, 6);
}

fn reading<M: Matrix<Item = usize>>(m: &M) -> Vec<Vec<usize>> {
    let mut all = Vec::new();
    for i in 0..m.height() {
        let mut cells = Vec::new();
        for j in 0..m.width() {
            cells.push(*m.at(i, j).unwrap());
        }
        all.push(cells);
    }
    all
}

fn three_blocks() -> Meow<Array2d<usize>> {
    let mut m = Meow::from(Array2d::gen(2, 2, |i, j| 10 * i + j));
    m.eat(Array2d::gen(2, 1, |i, _| 10 * i + 2)).unwrap();
    m.eat(Array2d::gen(2, 3, |i, j| 10 * i + j + 3)).unwrap();
    m
}

#[test]
fn eat_appends_on_the_right_and_calculate_copies_a_block() {
    let a = Array2d::gen(3, 3, |i, j| 10 * i + j);
    let b = Array2d::try_from(3, 1, vec![7, 8, 9]).unwrap();
    let mut m = Meow::from(a);
    assert_eq!(m.eat(b.clone()), Ok(()));
    assert_eq!(m.height(), 3);
    assert_eq!(m.width(), 4);
    assert_eq!(m.at(0, 3), Some(&7));
    assert_eq!(m.at(1, 3), Some(&8));
    assert_eq!(m.at(2, 3), Some(&9));
    assert_eq!(m.at(2, 2), Some(&22));
    assert_eq!(m.at(0, 4), None);
    assert_eq!(m.at(3, 0), None);
    assert_eq!(m.calculate(1), Some(b));
    assert_eq!(m.calculate(0), Some(Array2d::gen(3, 3, |i, j| 10 * i + j)));
    assert_eq!(m.calculate(2), None);
}

#[test]
fn eat_hands_back_a_block_of_another_height() {
    let mut m = Meow::from(Array2d::gen(3, 2, |i, j| 10 * i + j));
    let short = Array2d::gen(2, 2, |i, j| i + j);
    assert_eq!(m.eat(short.clone()), Err(short));
    assert_eq!(m.width(), 2);
    assert_eq!(reading(&m), vec![vec![0, 1], vec![10, 11], vec![20, 21]]);
}

#[test]
fn swaps_of_a_meow_cross_its_blocks() {
    let mut m = three_blocks();
    assert_eq!(m.swap_columns(0, 5), Some(()));
    assert_eq!(m.swap_rows(0, 1), Some(()));
    assert_eq!(m.swap_columns(6, 0), None);
    assert_eq!(m.swap_rows(0, 2), None);
    assert_eq!(
        reading(&m),
        vec![vec![15, 11, 12, 13, 14, 10], vec![5, 1, 2, 3, 4, 0]]
    );
    *m.at_mut(0, 0).unwrap() = 99;
    assert_eq!(m.at(0, 0), Some(&99));
    assert_eq!(
        m.calculate(2),
        Some(Array2d::try_from(2, 3, vec![13, 14, 10, 3, 4, 0]).unwrap())
    );
    assert_eq!(
        m.calculate(0),
        Some(Array2d::try_from(2, 2, vec![99, 11, 5, 1]).unwrap())
    );
}

#[test]
fn eat_after_swaps_keeps_the_new_columns_last() {
    let mut m = Meow::from(Array2d::gen(2, 2, |i, j| 10 * i + j));
    m.swap_columns(0, 1).unwrap();
    m.swap_rows(0, 1).unwrap();
    m.eat(Array2d::try_from(2, 1, vec![7, 8]).unwrap()).unwrap();
    assert_eq!(reading(&m), vec![vec![11, 10, 8], vec![1, 0, 7]]);
}

#[test]
fn poop_takes_the_last_columns_as_they_read() {
    let mut m = three_blocks();
    m.swap_columns(0, 5).unwrap();
    m.swap_columns(1, 3).unwrap();
    m.swap_rows(0, 1).unwrap();
    assert_eq!(
        reading(&m),
        vec![vec![15, 13, 12, 11, 14, 10], vec![5, 3, 2, 1, 4, 0]]
    );
    let mut potty = 77;

    let last = m.poop(&mut potty).unwrap();
    assert_eq!(potty, 77);
    assert_eq!(reading(&last), vec![vec![11, 14, 10], vec![1, 4, 0]]);
    assert_eq!(reading(&m), vec![vec![15, 13, 12], vec![5, 3, 2]]);

    let middle = m.poop(&mut potty).unwrap();
    assert_eq!(reading(&middle), vec![vec![12], vec![2]]);
    let first = m.poop(&mut potty).unwrap();
    assert_eq!(reading(&first), vec![vec![15, 13], vec![5, 3]]);
    assert_eq!(m.width(), 0);
    assert_eq!(m.height(), 2);
    assert!(m.poop(&mut potty).is_none());
    assert_eq!(potty, 77);
}

#[test]
fn extract_takes_the_columns_of_one_block_as_they_read() {
    let mut m = three_blocks();
    m.swap_columns(0, 2).unwrap();
    m.swap_columns(2, 4).unwrap();
    m.swap_rows(1, 0).unwrap();
    assert_eq!(
        reading(&m),
        vec![vec![12, 11, 14, 13, 10, 15], vec![2, 1, 4, 3, 0, 5]]
    );
    let mut potty = 5;
    assert!(m.extract(3, &mut potty).is_none());

    let middle = m.extract(1, &mut potty).unwrap();
    assert_eq!(potty, 5);
    assert_eq!(reading(&middle), vec![vec![14], vec![4]]);
    assert_eq!(
        reading(&m),
        vec![vec![12, 11, 13, 10, 15], vec![2, 1, 3, 0, 5]]
    );

    let first = m.extract(0, &mut potty).unwrap();
    assert_eq!(reading(&first), vec![vec![12, 11], vec![2, 1]]);
    assert_eq!(reading(&m), vec![vec![13, 10, 15], vec![3, 0, 5]]);
}

#[test]
fn a_clone_of_a_meow_reads_the_same_and_lives_apart() {
    let mut m = three_blocks();
    m.swap_columns(1, 4).unwrap();
    let copy = m.clone();
    *m.at_mut(0, 0).unwrap() = 99;
    m.swap_rows(0, 1).unwrap();
    assert_eq!(reading(&copy), vec![vec![0, 4, 2, 3, 1, 5], vec![10, 14, 12, 13, 11, 15]]);
    assert_eq!(reading(&m), vec![vec![10, 14, 12, 13, 11, 15], vec![99, 4, 2, 3, 1, 5]]);
    assert_eq!(copy.widths(), vec![2, 1, 3]);
}

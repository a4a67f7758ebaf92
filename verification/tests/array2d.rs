use matrices::{Array2d, Iteratable, Mapped, Matrix};

#[test]
fn gen_matches_try_from() {
    let data: Vec<(usize, usize)> = vec![
        (0, 0),
        (0, 1),
        (0, 2),
        (1, 0),
        (1, 1),
        (1, 2),
        (2, 0),
        (2, 1),
        (2, 2),
    ];
    let a = Array2d::try_from(3, 3, data).expect("Dimensions were incorrect");
    let b = Array2d::gen(3, 3, |i, j| (i, j));
    assert_eq!(a, b);
}

#[test]
fn array2d_swap_rows_ok() {
    let size = 5;

    let mut m = Array2d::gen(size, size, |i, j| (i, j));

    m.swap_rows(0, 2);
    let m21034 = Array2d::try_from(
        size,
        size,
        vec![
            (2, 0),
            (2, 1),
            (2, 2),
            (2, 3),
            (2, 4),
            (1, 0),
            (1, 1),
            (1, 2),
            (1, 3),
            (1, 4),
            (0, 0),
            (0, 1),
            (0, 2),
            (0, 3),
            (0, 4),
            (3, 0),
            (3, 1),
            (3, 2),
            (3, 3),
            (3, 4),
            (4, 0),
            (4, 1),
            (4, 2),
            (4, 3),
            (4, 4),
        ],
    )
    .expect("Wrong dimensions for m21034");
    assert_eq!(m, m21034, "Row swap #0 (0, 2) failed");

    m.swap_rows(2, 3);
    let m21304 = Array2d::try_from(
        size,
        size,
        vec![
            (2, 0),
            (2, 1),
            (2, 2),
            (2, 3),
            (2, 4),
            (1, 0),
            (1, 1),
            (1, 2),
            (1, 3),
            (1, 4),
            (3, 0),
            (3, 1),
            (3, 2),
            (3, 3),
            (3, 4),
            (0, 0),
            (0, 1),
            (0, 2),
            (0, 3),
            (0, 4),
            (4, 0),
            (4, 1),
            (4, 2),
            (4, 3),
            (4, 4),
        ],
    )
    .expect("Wrong dimensions for m21304");
    assert_eq!(m, m21304, "Row swap #1 (2, 3) failed");

    m.swap_rows(0, 2);
    let m31204 = Array2d::try_from(
        size,
        size,
        vec![
            (3, 0),
            (3, 1),
            (3, 2),
            (3, 3),
            (3, 4),
            (1, 0),
            (1, 1),
            (1, 2),
            (1, 3),
            (1, 4),
            (2, 0),
            (2, 1),
            (2, 2),
            (2, 3),
            (2, 4),
            (0, 0),
            (0, 1),
            (0, 2),
            (0, 3),
            (0, 4),
            (4, 0),
            (4, 1),
            (4, 2),
            (4, 3),
            (4, 4),
        ],
    )
    .expect("Wrong dimensions for m31204");
    assert_eq!(m, m31204, "Row swap #2 (0, 2) failed");

    m.swap_rows(0, 3);
    let m01234 = Array2d::gen(size, size, |i, j| (i, j));
    assert_eq!(m, m01234, "Row swap #3 (0, 3) failed");
}

#[test]
fn array2d_swap_columns_ok() {
    let size = 5;

    let mut m = Array2d::gen(size, size, |i, j| (i, j));

    m.swap_columns(0, 2);
    let m21034 = Array2d::try_from(
        size,
        size,
        vec![
            (0, 2),
            (0, 1),
            (0, 0),
            (0, 3),
            (0, 4),
            (1, 2),
            (1, 1),
            (1, 0),
            (1, 3),
            (1, 4),
            (2, 2),
            (2, 1),
            (2, 0),
            (2, 3),
            (2, 4),
            (3, 2),
            (3, 1),
            (3, 0),
            (3, 3),
            (3, 4),
            (4, 2),
            (4, 1),
            (4, 0),
            (4, 3),
            (4, 4),
        ],
    )
    .expect("Wrong dimensions for m21034");
    assert_eq!(m, m21034, "Column swap #0 (0, 2) failed");

    m.swap_columns(2, 3);
    let m21304 = Array2d::try_from(
        size,
        size,
        vec![
            (0, 2),
            (0, 1),
            (0, 3),
            (0, 0),
            (0, 4),
            (1, 2),
            (1, 1),
            (1, 3),
            (1, 0),
            (1, 4),
            (2, 2),
            (2, 1),
            (2, 3),
            (2, 0),
            (2, 4),
            (3, 2),
            (3, 1),
            (3, 3),
            (3, 0),
            (3, 4),
            (4, 2),
            (4, 1),
            (4, 3),
            (4, 0),
            (4, 4),
        ],
    )
    .expect("Wrong dimensions for m21304");
    assert_eq!(m, m21304, "Column swap #1 (2, 3) failed");

    m.swap_columns(0, 2);
    let m31204 = Array2d::try_from(
        size,
        size,
        vec![
            (0, 3),
            (0, 1),
            (0, 2),
            (0, 0),
            (0, 4),
            (1, 3),
            (1, 1),
            (1, 2),
            (1, 0),
            (1, 4),
            (2, 3),
            (2, 1),
            (2, 2),
            (2, 0),
            (2, 4),
            (3, 3),
            (3, 1),
            (3, 2),
            (3, 0),
            (3, 4),
            (4, 3),
            (4, 1),
            (4, 2),
            (4, 0),
            (4, 4),
        ],
    )
    .expect("Wrong dimensions for m31204");
    assert_eq!(m, m31204, "Column swap #2 (0, 2) failed");

    m.swap_columns(0, 3);
    let m01234 = Array2d::gen(size, size, |i, j| (i, j));
    assert_eq!(m, m01234, "Column swap #3 (0, 3) failed");
}

#[test]
fn array2d_rows_access_ok() {
    let m = Array2d::gen(3, 3, |i, j| (i, j));
    let mut rows = m.rows();
    let mut row_id = 0;
    while let Some(mut row) = rows.next() {
        let mut column_id = 0;
        while let Some(&(i, j)) = row.next() {
            assert_eq!(i, row_id);
            assert_eq!(j, column_id);
            column_id += 1;
        }
        assert_eq!(column_id, 3);
        row_id += 1;
    }
    assert_eq!(row_id, 3);
}

#[test]
fn array2d_columns_access_ok() {
    let m = Array2d::gen(3, 3, |i, j| (i, j));
    let mut columns = m.columns();
    let mut column_id = 0;
    while let Some(mut column) = columns.next() {
        let mut row_id = 0;
        while let Some(&(i, j)) = column.next() {
            assert_eq!(i, row_id);
            assert_eq!(j, column_id);
            row_id += 1;
        }
        assert_eq!(row_id, 3);
        column_id += 1;
    }
    assert_eq!(column_id, 3);
}

#[test]
fn swap_rows_reads_the_other_row() {
    let mut m = Array2d::gen(3, 3, |i, j| (i, j));
    assert_eq!(m.swap_rows(0, 2), Some(()));
    assert_eq!(m.at(0, 0), Some(&(2, 0)));
    assert_eq!(m.at(2, 0), Some(&(0, 0)));
    assert_eq!(m.at(1, 1), Some(&(1, 1)));
}

#[test]
fn try_from_rejects_a_buffer_of_the_wrong_length() {
    let back = Array2d::try_from(2, 3, vec![1, 2, 3, 4, 5]);
    assert_eq!(back, Err(vec![1, 2, 3, 4, 5]));
    let empty = Array2d::<u8>::try_from(0, 5, Vec::new()).expect("no cells are needed");
    assert_eq!(empty.height(), 0);
    assert_eq!(empty.width(), 5);
    let huge = Array2d::try_from(usize::MAX, 2, vec![0u8]);
    assert_eq!(huge, Err(vec![0u8]));
}

#[test]
fn default_fills_with_the_default_value() {
    let m: Array2d<i32> = Array2d::default(2, 3);
    assert_eq!(m.height(), 2);
    assert_eq!(m.width(), 3);
    for i in 0..2 {
        for j in 0..3 {
            assert_eq!(m.at(i, j), Some(&0));
        }
    }
}

#[test]
fn access_outside_is_none() {
    let mut m = Array2d::gen(2, 3, |i, j| 10 * i + j);
    assert_eq!(m.at(2, 0), None);
    assert_eq!(m.at(0, 3), None);
    assert_eq!(m.at(0, 4), None);
    assert!(m.at_mut(2, 2).is_none());
    assert_eq!(m.swap_rows(0, 2), None);
    assert_eq!(m.swap_columns(3, 0), None);
    assert_eq!(m, Array2d::gen(2, 3, |i, j| 10 * i + j));
    m.swap_columns(0, 2).unwrap();
    assert_eq!(m.at(0, 3), None);
    assert_eq!(m.at(1, 0), Some(&12));
}

#[test]
fn at_mut_writes_the_logical_cell() {
    let mut m = Array2d::gen(3, 2, |i, j| 10 * i + j);
    m.swap_rows(0, 2).unwrap();
    m.swap_columns(0, 1).unwrap();
    *m.at_mut(0, 0).unwrap() = 99;
    let expected = Array2d::try_from(3, 2, vec![99, 20, 11, 10, 1, 0]).unwrap();
    assert_eq!(m, expected);
}

#[test]
fn swaps_undone_in_reverse_restore_the_matrix() {
    let original = Array2d::gen(4, 3, |i, j| (i, j));
    let mut m = original.clone();
    m.swap_rows(0, 3).unwrap();
    m.swap_columns(1, 2).unwrap();
    m.swap_rows(1, 3).unwrap();
    assert_ne!(m, original);
    m.swap_rows(1, 3).unwrap();
    m.swap_columns(1, 2).unwrap();
    m.swap_rows(0, 3).unwrap();
    assert_eq!(m, original);
}

#[test]
fn sync_keeps_the_reading_and_orders_the_storage() {
    let mut m = Array2d::gen(4, 5, |i, j| 10 * i + j);
    m.swap_rows(0, 1).unwrap();
    m.swap_rows(1, 2).unwrap();
    m.swap_rows(2, 3).unwrap();
    m.swap_columns(0, 4).unwrap();
    m.swap_columns(1, 4).unwrap();
    m.swap_columns(2, 3).unwrap();
    let reading = m.clone();
    let mut temp = 0;

    m.sync_columns(&mut temp);
    assert_eq!(temp, 0);
    assert_eq!(m, reading);
    for j in 0..5 {
        assert_eq!(Mapped::column(&m, j), Some(j));
    }
    assert_eq!(Mapped::row(&m, 0), Some(1));

    m.sync_rows(&mut temp);
    assert_eq!(temp, 0);
    assert_eq!(m, reading);
    for i in 0..4 {
        assert_eq!(Mapped::row(&m, i), Some(i));
    }
    assert_eq!(Mapped::row(&m, 4), None);

    let stored = Array2d::try_from(
        4,
        5,
        vec![
            14, 10, 13, 12, 11, //
            24, 20, 23, 22, 21, //
            34, 30, 33, 32, 31, //
            4, 0, 3, 2, 1, //
        ],
    )
    .unwrap();
    assert_eq!(m, stored);
}

#[test]
fn sync_row_rotates_one_row_along_the_column_order() {
    let mut m = Array2d::gen(2, 4, |i, j| 10 * i + j);
    m.swap_columns(0, 1).unwrap();
    m.swap_columns(1, 2).unwrap();
    let mut temp = 777;
    m.sync_row(1, &mut temp);
    assert_eq!(temp, 777);
    m.reset_columns(4);
    assert_eq!(m.at(1, 0), Some(&11));
    assert_eq!(m.at(1, 1), Some(&12));
    assert_eq!(m.at(1, 2), Some(&10));
    assert_eq!(m.at(1, 3), Some(&13));
    assert_eq!(m.at(0, 0), Some(&0));
    assert_eq!(m.at(0, 1), Some(&1));
}

#[test]
fn equality_is_by_reading_not_by_storage() {
    let mut a = Array2d::gen(2, 2, |i, j| 2 * i + j);
    a.swap_rows(0, 1).unwrap();
    let b = Array2d::try_from(2, 2, vec![2, 3, 0, 1]).unwrap();
    assert_eq!(a, b);
    let c = Array2d::try_from(1, 4, vec![2, 3, 0, 1]).unwrap();
    assert_ne!(b, c);
    let d = Array2d::try_from(2, 2, vec![2, 3, 0, 7]).unwrap();
    assert_ne!(b, d);
}

use matrices::indexes;
use matrices::{Array2d, Indexable, Iteratable, Matrix, Transposed};

#[test]
fn a_row_of_coordinates_runs_from_both_ends() {
    let mut row = indexes::Row::new(4, 3, 2);
    assert_eq!(row.size_hint(), (3, Some(3)));
    assert_eq!(row.next(), Some((2, 0)));
    assert_eq!(row.next_back(), Some((2, 2)));
    assert_eq!(row.size_hint(), (1, Some(1)));
    assert_eq!(row.next_back(), Some((2, 1)));
    assert_eq!(row.next(), None);
    assert_eq!(row.next_back(), None);
    assert_eq!(row.size_hint(), (0, Some(0)));
}

#[test]
fn a_column_of_coordinates_runs_from_both_ends() {
    let mut column = indexes::Column::new(3, 5, 4);
    assert_eq!(column.size_hint(), (3, Some(3)));
    assert_eq!(column.next_back(), Some((2, 4)));
    assert_eq!(column.next(), Some((0, 4)));
    assert_eq!(column.next(), Some((1, 4)));
    assert_eq!(column.next(), None);
    assert_eq!(column.next_back(), None);
    let mut none = indexes::Column::new(0, 5, 1);
    assert_eq!(none.next(), None);
}

#[test]
fn rows_and_columns_of_coordinates_cover_the_matrix() {
    let mut rows = indexes::Rows::new(2, 3);
    assert_eq!(rows.size_hint(), (2, Some(2)));
    let mut seen = Vec::new();
    while let Some(mut row) = rows.next() {
        while let Some(cell) = row.next() {
            seen.push(cell);
        }
    }
    assert_eq!(seen, vec![(0, 0), (0, 1), (0, 2), (1, 0), (1, 1), (1, 2)]);

    let mut columns = indexes::Columns::new(2, 3);
    assert_eq!(columns.size_hint(), (3, Some(3)));
    let mut seen = Vec::new();
    while let Some(mut column) = columns.next_back() {
        while let Some(cell) = column.next() {
            seen.push(cell);
        }
    }
    assert_eq!(seen, vec![(0, 2), (1, 2), (0, 1), (1, 1), (0, 0), (1, 0)]);

    let mut rows = indexes::Rows::new(3, 1);
    let mut last = rows.next_back().unwrap();
    assert_eq!(last.next(), Some((2, 0)));
    assert_eq!(rows.size_hint(), (2, Some(2)));
}

#[test]
fn a_matrix_hands_out_its_coordinates() {
    let m = Array2d::gen(2, 3, |i, j| 10 * i + j);
    assert_eq!(m.iheight(), 2);
    assert_eq!(m.iwidth(), 3);
    let mut row = m.irow(1);
    assert_eq!(row.next(), Some((1, 0)));
    assert_eq!(row.size_hint(), (2, Some(2)));
    let mut column = m.icolumn(2);
    assert_eq!(column.next_back(), Some((1, 2)));
    assert_eq!(m.irows().size_hint(), (2, Some(2)));
    assert_eq!(m.icolumns().size_hint(), (3, Some(3)));
    let mut total = 0;
    let mut rows = m.irows();
    while let Some(mut row) = rows.next() {
        while let Some((i, j)) = row.next() {
            total += *m.at(i, j).unwrap();
        }
    }
    assert_eq!(total, 36);
}

#[test]
fn cell_cursors_run_from_both_ends() {
    let mut m = Array2d::gen(3, 3, |i, j| 10 * i + j);
    m.swap_rows(0, 2).unwrap();
    let mut row = Iteratable::row(&m, 0);
    assert_eq!(row.size_hint(), (3, Some(3)));
    assert_eq!(row.next(), Some(&20));
    assert_eq!(row.next_back(), Some(&22));
    assert_eq!(row.next_back(), Some(&21));
    assert_eq!(row.next_back(), None);
    assert_eq!(row.next(), None);

    let mut column = Iteratable::column(&m, 1);
    assert_eq!(column.next_back(), Some(&1));
    assert_eq!(column.size_hint(), (2, Some(2)));
    assert_eq!(column.next(), Some(&21));
    assert_eq!(column.next(), Some(&11));
    assert_eq!(column.next(), None);

    let mut rows = m.rows();
    assert_eq!(rows.size_hint(), (3, Some(3)));
    let mut last = rows.next_back().unwrap();
    assert_eq!(last.next(), Some(&0));
    let mut first = rows.next().unwrap();
    assert_eq!(first.next_back(), Some(&22));
    assert_eq!(rows.size_hint(), (1, Some(1)));

    let mut columns = m.columns();
    let mut last = columns.next_back().unwrap();
    assert_eq!(last.next(), Some(&22));
    assert_eq!(columns.size_hint(), (2, Some(2)));
}

#[test]
fn a_cursor_over_a_missing_row_is_empty() {
    let m = Array2d::gen(2, 3, |i, j| 10 * i + j);
    let mut row = Iteratable::row(&m, 2);
    assert_eq!(row.size_hint(), (3, Some(3)));
    assert_eq!(row.next(), None);
    assert_eq!(row.next_back(), None);
    let mut column = Iteratable::column(&m, 3);
    assert_eq!(column.next(), None);
    assert_eq!(column.next_back(), None);
}

#[test]
fn transposed_exchanges_rows_and_columns() {
    let mut t = Transposed::new(Array2d::gen(2, 3, |i, j| 10 * i + j));
    assert_eq!(t.height(), 3);
    assert_eq!(t.width(), 2);
    assert_eq!(t.at(2, 1), Some(&12));
    assert_eq!(t.at(1, 2), None);
    *t.at_mut(0, 1).unwrap() = 77;
    assert_eq!(t.at(0, 1), Some(&77));
    assert_eq!(t.swap_rows(0, 2), Some(()));
    assert_eq!(t.at(0, 0), Some(&2));
    assert_eq!(t.at(2, 1), Some(&77));
    assert_eq!(t.swap_columns(0, 1), Some(()));
    assert_eq!(t.at(2, 0), Some(&77));
    assert_eq!(t.swap_rows(0, 3), None);
    assert_eq!(t.swap_columns(0, 2), None);
    let mut row = t.rows().next().unwrap();
    assert_eq!(row.next(), Some(&12));
    assert_eq!(row.next(), Some(&2));
    assert_eq!(row.next(), None);
}

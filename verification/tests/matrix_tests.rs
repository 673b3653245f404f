use rustplex::matrix::{Matrix, MatrixError};
use rustplex::rational::Rational;

fn n(v: i32) -> Rational {
    Rational::from_integer(v)
}

#[test]
fn matrix_starts_empty() {
    let m = Matrix::new();
    assert_eq!(m.num_rows(), 0);
    assert_eq!(m.num_cols(), 0);
    assert_eq!(m.get_value(0, 0), Err(MatrixError::RowOutOfRange));
}

#[test]
fn matrix_rows_and_columns_get_their_indices() {
    let mut m = Matrix::new();
    assert_eq!(m.add_row(), 0);
    assert_eq!(m.add_column(), 0);
    assert_eq!(m.add_column(), 1);
    assert_eq!(m.add_row(), 1);
    assert_eq!(m.add_column(), 2);
    assert_eq!(m.num_rows(), 2);
    assert_eq!(m.num_cols(), 3);
}

#[test]
fn matrix_new_cells_are_zero() {
    let mut m = Matrix::new();
    m.add_column();
    m.add_row();
    m.add_column();
    m.add_row();
    for row in 0..2 {
        for column in 0..2 {
            assert_eq!(m.get_value(row, column), Ok(n(0)));
        }
    }
}

#[test]
fn matrix_columns_before_rows_are_kept() {
    let mut m = Matrix::new();
    m.add_column();
    m.add_column();
    assert_eq!(m.num_rows(), 0);
    assert_eq!(m.num_cols(), 2);
    assert_eq!(m.get_value(0, 0), Err(MatrixError::RowOutOfRange));
    m.add_row();
    assert_eq!(m.get_value(0, 1), Ok(n(0)));
    assert_eq!(m.get_value(0, 2), Err(MatrixError::ColumnOutOfRange));
}

#[test]
fn matrix_set_then_get() {
    let mut m = Matrix::new();
    m.add_row();
    m.add_row();
    m.add_column();
    m.add_column();
    assert_eq!(m.set_value(1, 0, n(5)), Ok(()));
    assert_eq!(m.set_value(0, 1, n(-2)), Ok(()));
    assert_eq!(m.get_value(1, 0), Ok(n(5)));
    assert_eq!(m.get_value(0, 1), Ok(n(-2)));
    assert_eq!(m.get_value(0, 0), Ok(n(0)));
    assert_eq!(m.get_value(1, 1), Ok(n(0)));
    m.add_column();
    m.add_row();
    assert_eq!(m.get_value(1, 0), Ok(n(5)));
    assert_eq!(m.get_value(1, 2), Ok(n(0)));
    assert_eq!(m.get_value(2, 0), Ok(n(0)));
}

#[test]
fn matrix_out_of_range_is_reported_and_changes_nothing() {
    let mut m = Matrix::new();
    m.add_row();
    m.add_column();
    assert_eq!(m.set_value(0, 0, n(9)), Ok(()));
    assert_eq!(m.set_value(1, 0, n(1)), Err(MatrixError::RowOutOfRange));
    assert_eq!(m.set_value(0, 1, n(1)), Err(MatrixError::ColumnOutOfRange));
    assert_eq!(m.set_value(1, 1, n(1)), Err(MatrixError::RowOutOfRange));
    assert_eq!(m.get_value(1, 0), Err(MatrixError::RowOutOfRange));
    assert_eq!(m.get_value(0, 1), Err(MatrixError::ColumnOutOfRange));
    assert_eq!(m.get_value(7, 7), Err(MatrixError::RowOutOfRange));
    assert_eq!(m.get_value(0, 0), Ok(n(9)));
    assert_eq!(m.num_rows(), 1);
    assert_eq!(m.num_cols(), 1);
}

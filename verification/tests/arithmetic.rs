use matrix_core::errors::MatrixError;
use matrix_core::matrix::types::Matrix;

fn m(rows: &[&[&str]]) -> Matrix {
    let data: Vec<Vec<String>> = rows
        .iter()
        .map(|r| r.iter().map(|c| c.to_string()).collect())
        .collect();
    Matrix::new(data).expect("rectangular input")
}

#[test]
fn add_is_element_wise() {
    let a = m(&[&["1", "2"], &["3", "4"]]);
    let b = m(&[&["5", "6"], &["7", "8"]]);
    assert_eq!(a.add(&b), Ok(m(&[&["6", "8"], &["10", "12"]])));
}

#[test]
fn subtract_is_element_wise() {
    let a = m(&[&["5", "6"], &["7", "8"]]);
    let b = m(&[&["1", "2"], &["3", "4"]]);
    assert_eq!(a.subtract(&b), Ok(m(&[&["4", "4"], &["4", "4"]])));
    assert_eq!(b.subtract(&a), Ok(m(&[&["-4", "-4"], &["-4", "-4"]])));
}

#[test]
fn multiply_follows_the_dot_product() {
    let a = m(&[&["1", "2"], &["3", "4"]]);
    let b = m(&[&["5", "6"], &["7", "8"]]);
    assert_eq!(a.multiply(&b), Ok(m(&[&["19", "22"], &["43", "50"]])));
}

#[test]
fn multiply_result_has_outer_shape() {
    let a = m(&[&["1", "0", "2"], &["0", "1", "1"]]);
    let b = m(&[&["1", "1"], &["2", "0"], &["0", "3"]]);
    let p = a.multiply(&b).expect("inner dimensions match");
    assert_eq!(p.rows, 2);
    assert_eq!(p.cols, 2);
    assert_eq!(p, m(&[&["1", "7"], &["2", "3"]]));
}

#[test]
fn add_preserves_operand_shape() {
    let a = m(&[&["1", "2", "3"], &["4", "5", "6"]]);
    let b = m(&[&["0", "0", "0"], &["0", "0", "0"]]);
    let s = a.add(&b).expect("shapes match");
    assert_eq!(s.rows, 2);
    assert_eq!(s.cols, 3);
    assert_eq!(s, a);
}

#[test]
fn add_rejects_shape_mismatch() {
    let a = m(&[&["1", "2"]]);
    let b = m(&[&["1", "2", "3"]]);
    assert_eq!(a.add(&b), Err(MatrixError::ShapeMismatch));
}

#[test]
fn multiply_rejects_inner_dimension_mismatch() {
    let a = m(&[&["1", "2"]]);
    let b = m(&[&["1", "2"]]);
    assert_eq!(a.multiply(&b), Err(MatrixError::ShapeMismatch));
}

#[test]
fn parse_errors_take_priority_over_shape() {
    let a = m(&[&["x"]]);
    let b = m(&[&["1", "2"]]);
    assert_eq!(a.add(&b), Err(MatrixError::InvalidNumber));
    assert_eq!(a.multiply(&b), Err(MatrixError::InvalidNumber));
}

#[test]
fn add_reports_unparseable_cells() {
    let a = m(&[&["1", "two"]]);
    let b = m(&[&["3", "4"]]);
    assert_eq!(a.add(&b), Err(MatrixError::InvalidNumber));
}

#[test]
fn decimal_cells_are_computed_exactly() {
    let a = m(&[&["1.25"]]);
    let b = m(&[&["1.25"]]);
    assert_eq!(a.add(&b), Ok(m(&[&["2.5"]])));
}

#[test]
fn results_trim_trailing_zeros() {
    let a = m(&[&["3.000"]]);
    let b = m(&[&["0"]]);
    assert_eq!(a.add(&b), Ok(m(&[&["3"]])));
}

#[test]
fn negative_decimals_combine_exactly() {
    let a = m(&[&["-1.5"]]);
    let b = m(&[&["0.25"]]);
    assert_eq!(a.add(&b), Ok(m(&[&["-1.25"]])));
    assert_eq!(a.multiply(&m(&[&["2"]])), Ok(m(&[&["-3"]])));
}

#[test]
fn add_reports_overflow_of_the_cell_range() {
    let a = m(&[&["9223372036854775807"]]);
    let b = m(&[&["1"]]);
    assert_eq!(a.add(&b), Err(MatrixError::Overflow));
}

#[test]
fn subtract_rejects_shape_mismatch() {
    let a = m(&[&["1"], &["2"]]);
    let b = m(&[&["1", "2"]]);
    assert_eq!(a.subtract(&b), Err(MatrixError::ShapeMismatch));
}

#[test]
fn multiply_reports_overflow_of_the_cell_range() {
    let a = m(&[&["3037000500"]]);
    assert_eq!(a.multiply(&a), Err(MatrixError::Overflow));
}

#[test]
fn add_of_empty_matrices_is_empty() {
    let a = Matrix::new(Vec::new()).expect("no rows");
    let b = Matrix::new(Vec::new()).expect("no rows");
    assert_eq!(a.add(&b), Ok(Matrix::new(Vec::new()).unwrap()));
}

#[test]
fn multiply_with_degenerate_inner_dimension_is_all_zero() {
    let a = Matrix::new(vec![Vec::new(), Vec::new()]).expect("2x0 matrix");
    let b = Matrix::zero_filled(0, 3);
    let p = a.multiply(&b).expect("inner dimensions match");
    assert_eq!(p, Matrix::zero_filled(2, 3));
}

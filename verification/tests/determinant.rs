use matrix_core::errors::MatrixError;
use matrix_core::matrix::types::Matrix;
use matrix_core::rational::Rational;

fn m(rows: &[&[&str]]) -> Matrix {
    let data: Vec<Vec<String>> = rows
        .iter()
        .map(|r| r.iter().map(|c| c.to_string()).collect())
        .collect();
    Matrix::new(data).expect("rectangular input")
}

fn whole(n: i64) -> Rational {
    Rational { num: n, den: 1 }
}

#[test]
fn determinant_of_identity_is_one() {
    assert_eq!(m(&[&["1", "0"], &["0", "1"]]).determinant(), Ok(whole(1)));
}

#[test]
fn determinant_of_diagonal_is_the_product() {
    assert_eq!(m(&[&["2", "0"], &["0", "3"]]).determinant(), Ok(whole(6)));
}

#[test]
fn determinant_of_singular_matrix_is_zero() {
    assert_eq!(m(&[&["1", "2"], &["2", "4"]]).determinant(), Ok(whole(0)));
}

#[test]
fn determinant_rejects_non_square() {
    assert_eq!(
        m(&[&["1", "2", "3"], &["4", "5", "6"]]).determinant(),
        Err(MatrixError::NotSquare)
    );
}

#[test]
fn determinant_of_empty_matrix_is_the_empty_product() {
    let mat = Matrix::new(Vec::new()).expect("no rows");
    assert_eq!(mat.determinant(), Ok(whole(1)));
}

#[test]
fn determinant_of_single_cell_is_the_cell() {
    assert_eq!(m(&[&["7"]]).determinant(), Ok(whole(7)));
}

#[test]
fn determinant_of_single_decimal_cell_is_reduced() {
    assert_eq!(
        m(&[&["2.5"]]).determinant(),
        Ok(Rational { num: 5, den: 2 })
    );
}

#[test]
fn determinant_uses_exact_rational_elimination() {
    // 0.5 * 2 with no off-diagonal contribution: exactly one.
    assert_eq!(m(&[&["0.5", "0"], &["0", "2"]]).determinant(), Ok(whole(1)));
    // A swap is needed in the first column and flips the sign.
    assert_eq!(m(&[&["0", "1"], &["1", "0"]]).determinant(), Ok(whole(-1)));
}

#[test]
fn determinant_of_three_by_three() {
    let mat = m(&[&["1", "2", "3"], &["4", "5", "6"], &["7", "8", "10"]]);
    assert_eq!(mat.determinant(), Ok(whole(-3)));
}

#[test]
fn determinant_of_matrix_with_zero_row_is_zero() {
    let mat = m(&[&["1", "2", "3"], &["0", "0", "0"], &["4", "5", "6"]]);
    assert_eq!(mat.determinant(), Ok(whole(0)));
}

#[test]
fn determinant_of_triangular_matrix_is_the_diagonal_product() {
    let mat = m(&[&["2", "7", "9"], &["0", "3", "8"], &["0", "0", "5"]]);
    assert_eq!(mat.determinant(), Ok(whole(30)));
}

#[test]
fn determinant_rejects_unparseable_cells() {
    assert_eq!(
        m(&[&["1", "x"], &["0", "1"]]).determinant(),
        Err(MatrixError::InvalidNumber)
    );
}

#[test]
fn determinant_checks_squareness_before_parsing() {
    assert_eq!(
        m(&[&["x", "y", "z"], &["1", "2", "3"]]).determinant(),
        Err(MatrixError::NotSquare)
    );
}

#[test]
fn rational_values_compare_by_cross_multiplication() {
    let half = Rational { num: 1, den: 2 };
    let two_quarters = Rational { num: 2, den: 4 };
    assert!(half.same_value(&two_quarters));
    assert!(!half.same_value(&whole(1)));
}

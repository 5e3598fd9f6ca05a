use matrix_core::errors::MatrixError;
use matrix_core::matrix::types::Matrix;

fn m(rows: &[&[&str]]) -> Matrix {
    let data: Vec<Vec<String>> = rows
        .iter()
        .map(|r| r.iter().map(|c| c.to_string()).collect())
        .collect();
    Matrix::new(data).expect("rectangular input")
}

#[test]
fn construct_stores_rows_verbatim() {
    let mat = m(&[&["1", "2"], &["3", "4"]]);
    assert_eq!(mat.rows, 2);
    assert_eq!(mat.cols, 2);
    assert_eq!(mat.data[0], vec!["1".to_string(), "2".to_string()]);
    assert_eq!(mat.data[1], vec!["3".to_string(), "4".to_string()]);
}

#[test]
fn construct_rejects_ragged_rows() {
    let data = vec![
        vec!["1".to_string(), "2".to_string()],
        vec!["3".to_string()],
    ];
    assert_eq!(Matrix::new(data), Err(MatrixError::NotRectangular));
}

#[test]
fn construct_accepts_empty_input() {
    let mat = Matrix::new(Vec::new()).expect("no rows is a valid degenerate matrix");
    assert_eq!(mat.rows, 0);
    assert_eq!(mat.cols, 0);
}

#[test]
fn construct_accepts_zero_width_rows() {
    let mat = Matrix::new(vec![Vec::new(), Vec::new()]).expect("zero-width rows are rectangular");
    assert_eq!(mat.rows, 2);
    assert_eq!(mat.cols, 0);
}

#[test]
fn zero_filled_has_requested_shape() {
    let mat = Matrix::zero_filled(2, 3);
    assert_eq!(mat.rows, 2);
    assert_eq!(mat.cols, 3);
    for row in &mat.data {
        for cell in row {
            assert_eq!(cell, "0");
        }
    }
}

#[test]
fn add_row_then_add_col_extends_with_zeros() {
    let mut mat = Matrix::zero_filled(2, 3);
    mat.data[0][1] = "9".to_string();
    mat.add_row();
    mat.add_col();
    assert_eq!(mat.rows, 3);
    assert_eq!(mat.cols, 4);
    assert_eq!(mat.data[0][1], "9");
    for j in 0..4 {
        assert_eq!(mat.data[2][j], "0");
    }
    for i in 0..3 {
        assert_eq!(mat.data[i][3], "0");
    }
}

#[test]
fn remove_row_and_col_shrink_to_empty() {
    let mut mat = Matrix::zero_filled(1, 1);
    mat.remove_row();
    assert_eq!(mat.rows, 0);
    mat.remove_row();
    assert_eq!(mat.rows, 0);
    mat.remove_col();
    assert_eq!(mat.cols, 0);
    mat.remove_col();
    assert_eq!(mat.cols, 0);
}

#[test]
fn remove_col_pops_last_cell_of_each_row() {
    let mut mat = m(&[&["1", "2", "3"], &["4", "5", "6"]]);
    mat.remove_col();
    assert_eq!(mat.cols, 2);
    assert_eq!(mat.data[0], vec!["1".to_string(), "2".to_string()]);
    assert_eq!(mat.data[1], vec!["4".to_string(), "5".to_string()]);
}

#[test]
fn transpose_flips_rows_and_columns() {
    let mat = m(&[&["1", "2", "3"], &["4", "5", "6"]]);
    let t = matrix_core::matrix::transpose::transpose(&mat);
    assert_eq!(t, m(&[&["1", "4"], &["2", "5"], &["3", "6"]]));
}

#[test]
fn transpose_twice_is_identity() {
    let mat = m(&[&["1", "2", "3"], &["4", "5", "6"]]);
    let tt = matrix_core::matrix::transpose::transpose(&matrix_core::matrix::transpose::transpose(
        &mat,
    ));
    assert_eq!(tt, mat);
}

#[test]
fn transpose_twice_is_identity_for_degenerate() {
    let mat = Matrix::new(vec![Vec::new(), Vec::new()]).expect("rectangular");
    let tt = matrix_core::matrix::transpose::transpose(&matrix_core::matrix::transpose::transpose(
        &mat,
    ));
    assert_eq!(tt, mat);
}

#[test]
fn app_starts_with_the_default_shapes() {
    let app = matrix_core::app::App::new();
    assert_eq!(app.matrix_a.rows, 2);
    assert_eq!(app.matrix_a.cols, 3);
    assert_eq!(app.matrix_b.rows, 3);
    assert_eq!(app.matrix_b.cols, 2);
    assert_eq!(app.matrix_a.data[0][0], "0");
}

#[test]
fn get_matrix_validates_a_copy() {
    let app = matrix_core::app::App::new();
    let copy = app.get_matrix(&app.matrix_a).expect("the default matrix is rectangular");
    assert_eq!(copy, app.matrix_a);

    let ragged = Matrix {
        rows: 2,
        cols: 2,
        data: vec![
            vec!["1".to_string(), "2".to_string()],
            vec!["3".to_string()],
        ],
    };
    assert_eq!(app.get_matrix(&ragged), Err(MatrixError::NotRectangular));
}

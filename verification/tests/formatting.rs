use matrix_core::decimal::parse_cell;
use matrix_core::matrix::types::Matrix;
use matrix_core::rational::Rational;

fn m(rows: &[&[&str]]) -> Matrix {
    let data: Vec<Vec<String>> = rows
        .iter()
        .map(|r| r.iter().map(|c| c.to_string()).collect())
        .collect();
    Matrix::new(data).expect("rectangular input")
}

#[test]
fn parse_accepts_plain_and_signed_integers() {
    assert_eq!(parse_cell("12"), Some(Rational { num: 12, den: 1 }));
    assert_eq!(parse_cell("+5"), Some(Rational { num: 5, den: 1 }));
    assert_eq!(parse_cell("-8"), Some(Rational { num: -8, den: 1 }));
    assert_eq!(parse_cell("007"), Some(Rational { num: 7, den: 1 }));
}

#[test]
fn parse_keeps_decimal_denominators_verbatim() {
    assert_eq!(parse_cell("3.50"), Some(Rational { num: 350, den: 100 }));
    assert_eq!(parse_cell("-0.25"), Some(Rational { num: -25, den: 100 }));
}

#[test]
fn parse_rejects_text_outside_the_grammar() {
    assert_eq!(parse_cell(""), None);
    assert_eq!(parse_cell("abc"), None);
    assert_eq!(parse_cell("1e5"), None);
    assert_eq!(parse_cell(".5"), None);
    assert_eq!(parse_cell("5."), None);
    assert_eq!(parse_cell("1.2.3"), None);
    assert_eq!(parse_cell("-"), None);
    assert_eq!(parse_cell("--1"), None);
    assert_eq!(parse_cell("1 2"), None);
}

#[test]
fn parse_rejects_values_outside_the_cell_range() {
    assert_eq!(parse_cell("9223372036854775807"), Some(Rational { num: i64::MAX, den: 1 }));
    assert_eq!(parse_cell("9223372036854775808"), None);
    assert_eq!(parse_cell("-9223372036854775808"), Some(Rational { num: i64::MIN, den: 1 }));
    assert_eq!(parse_cell("-9223372036854775809"), None);
    assert_eq!(parse_cell("0.0000000000000000001"), None);
}

#[test]
fn from_numbers_renders_whole_and_decimal_values() {
    let g = vec![vec![
        Rational { num: 3, den: 1 },
        Rational { num: 5, den: 2 },
        Rational { num: -1, den: 8 },
    ]];
    let mat = Matrix::from_numbers(1, 3, &g);
    assert_eq!(
        mat.data[0],
        vec!["3".to_string(), "2.5".to_string(), "-0.125".to_string()]
    );
}

#[test]
fn from_numbers_falls_back_to_a_fraction() {
    let g = vec![vec![Rational { num: 1, den: 3 }]];
    let mat = Matrix::from_numbers(1, 1, &g);
    assert_eq!(mat.data[0][0], "1/3");
}

#[test]
fn render_brackets_and_right_justifies() {
    let mat = m(&[&["10", "2"], &["3", "400"]]);
    assert_eq!(mat.render(), "\n⎡ 10   2 ⎤\n⎣  3 400 ⎦\n");
}

#[test]
fn render_single_row_uses_the_top_brackets() {
    let mat = m(&[&["1", "2"]]);
    assert_eq!(mat.render(), "\n⎡ 1 2 ⎤\n");
}

#[test]
fn render_middle_rows_use_side_brackets() {
    let mat = m(&[&["1"], &["2"], &["3"]]);
    assert_eq!(mat.render(), "\n⎡ 1 ⎤\n⎢ 2 ⎥\n⎣ 3 ⎦\n");
}

#[test]
fn render_trims_numeric_cells() {
    let mat = m(&[&["3.000", "3.500"]]);
    assert_eq!(mat.render(), "\n⎡ 3 3.5 ⎤\n");
}

#[test]
fn render_widths_follow_the_trimmed_forms() {
    let mat = m(&[&["10.00", "2"], &["3", "400.50"]]);
    assert_eq!(mat.render(), "\n⎡ 10     2 ⎤\n⎣  3 400.5 ⎦\n");
}

#[test]
fn render_keeps_unparseable_cells_verbatim() {
    let data = vec![vec!["abc".to_string()]];
    let mat = Matrix::new(data).expect("rectangular");
    assert_eq!(mat.render(), "\n⎡ abc ⎤\n");
}

#[test]
fn render_degenerate_matrix_uses_the_empty_marker() {
    let mat = Matrix::new(Vec::new()).expect("no rows");
    assert_eq!(mat.render(), "\n[]\n");
}

#[test]
fn rational_arithmetic_reduces_to_lowest_terms() {
    let a = Rational { num: 1, den: 2 };
    let b = Rational { num: 1, den: 6 };
    assert_eq!(a.add(&b), Some(Rational { num: 2, den: 3 }));
    assert_eq!(a.sub(&b), Some(Rational { num: 1, den: 3 }));
    assert_eq!(a.mul(&b), Some(Rational { num: 1, den: 12 }));
    assert_eq!(a.div(&b), Some(Rational { num: 3, den: 1 }));
}

#[test]
fn rational_addition_reports_unrepresentable_results() {
    let big = Rational { num: i64::MAX, den: 1 };
    assert_eq!(big.add(&Rational { num: 1, den: 1 }), None);
}

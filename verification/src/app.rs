use crate::errors::MatrixError;
use crate::matrix::types::{first_row_len, rectangular, Matrix};
use vstd::prelude::*;

verus! {

/// The pair of editable matrices an editing surface works on. The shapes of
/// a fresh pair are chosen here, by an explicit factory: the core itself
/// owns no global configuration.
pub struct App {
    pub matrix_a: Matrix,
    pub matrix_b: Matrix,
}

impl App {
    /// A fresh editing state: a zero-filled 2x3 matrix and a zero-filled
    /// 3x2 matrix.
    pub fn new() -> (app: App)
        ensures
            app.matrix_a.wf(),
            app.matrix_a.rows == 2,
            app.matrix_a.cols == 3,
            forall|i: int, j: int|
                0 <= i < 2 && 0 <= j < 3 ==> app.matrix_a.cell(i, j) == "0"@,
            app.matrix_b.wf(),
            app.matrix_b.rows == 3,
            app.matrix_b.cols == 2,
            forall|i: int, j: int|
                0 <= i < 3 && 0 <= j < 2 ==> app.matrix_b.cell(i, j) == "0"@,
    {
        App { matrix_a: Matrix::zero_filled(2, 3), matrix_b: Matrix::zero_filled(3, 2) }
    }

    /// A validated copy of an editable matrix's cells.
    ///
    /// The rows are copied verbatim and re-validated, so the result is a
    /// well-formed matrix exactly when the editable rows are rectangular;
    /// otherwise the copy is rejected with `NotRectangular`.
    pub fn get_matrix(&self, m: &Matrix) -> (r: Result<Matrix, MatrixError>)
        ensures
            match r {
                Ok(out) => {
                    &&& rectangular(m.data@)
                    &&& out.wf()
                    &&& out.rows == m.data@.len()
                    &&& out.cols == first_row_len(m.data@)
                    &&& forall|i: int, j: int|
                        0 <= i < out.rows && 0 <= j < out.cols ==> out.cell(i, j)
                            == m.data@[i]@[j]@
                },
                Err(e) => {
                    &&& e == MatrixError::NotRectangular
                    &&& !rectangular(m.data@)
                },
            },
    {
        let mut data: Vec<Vec<String>> = Vec::new();
        let n = m.data.len();
        let mut i: usize = 0;
        while i < n
            invariant
                n == m.data@.len(),
                i <= n,
                data@.len() == i,
                forall|a: int| 0 <= a < i ==> (#[trigger] data@[a])@.len() == m.data@[a]@.len(),
                forall|a: int, b: int|
                    0 <= a < i && 0 <= b < m.data@[a]@.len() ==> (#[trigger] data@[a]@[b])@
                        == m.data@[a]@[b]@,
            decreases n - i,
        {
            let mut row: Vec<String> = Vec::new();
            let k = m.data[i].len();
            let mut j: usize = 0;
            while j < k
                invariant
                    n == m.data@.len(),
                    i < n,
                    k == m.data@[i as int]@.len(),
                    j <= k,
                    row@.len() == j,
                    forall|b: int|
                        0 <= b < j ==> (#[trigger] row@[b])@ == m.data@[i as int]@[b]@,
                decreases k - j,
            {
                row.push(m.data[i][j].clone());
                j += 1;
            }
            data.push(row);
            i += 1;
        }
        let r = Matrix::new(data);
        proof {
            assert(first_row_len(data@) == first_row_len(m.data@));
            assert forall|a: int|
                0 <= a < m.data@.len() implies ((#[trigger] m.data@[a])@.len() == first_row_len(
                m.data@,
            ) <==> data@[a]@.len() == first_row_len(data@)) by {}
            if rectangular(data@) {
                assert(rectangular(m.data@));
            } else {
                assert(!rectangular(m.data@));
            }
        }
        r
    }
}

} // verus!

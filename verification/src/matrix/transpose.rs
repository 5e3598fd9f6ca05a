use crate::matrix::types::Matrix;
use vstd::prelude::*;

verus! {

/// The transpose of a `rows x cols` grid: entry `(j, i)` of the result is
/// entry `(i, j)` of the argument.
pub open spec fn transpose_grid(rows: int, cols: int, g: Seq<Seq<Seq<char>>>) -> Seq<
    Seq<Seq<char>>,
> {
    Seq::new(cols as nat, |j: int| Seq::new(rows as nat, |i: int| g[i][j]))
}

/// Transposing twice gives the original grid back. Together with the exact
/// postcondition of `transpose` this is the involution law: for every
/// well-formed matrix `m`, `transpose(transpose(m))` has `m`'s shape and
/// `m`'s cells.
pub proof fn lemma_transpose_involution(rows: int, cols: int, g: Seq<Seq<Seq<char>>>)
    requires
        0 <= rows,
        0 <= cols,
        g.len() == rows,
        forall|i: int| 0 <= i < rows ==> (#[trigger] g[i]).len() == cols,
    ensures
        transpose_grid(cols, rows, transpose_grid(rows, cols, g)) == g,
{
    let t = transpose_grid(rows, cols, g);
    let tt = transpose_grid(cols, rows, t);
    assert forall|i: int| 0 <= i < rows implies #[trigger] tt[i] == g[i] by {
        assert(tt[i] =~= g[i]);
    }
    assert(tt =~= g);
}

/// A new matrix with `rows` and `cols` swapped and cell `(j, i)` equal to the
/// argument's cell `(i, j)`. Pure: the argument is left untouched, and no
/// shape precondition beyond well-formedness is needed.
pub fn transpose(matrix: &Matrix) -> (r: Matrix)
    requires
        matrix.wf(),
    ensures
        r.wf(),
        r.rows == matrix.cols,
        r.cols == matrix.rows,
        r.grid() == transpose_grid(matrix.rows as int, matrix.cols as int, matrix.grid()),
{
    let mut result: Vec<Vec<String>> = Vec::new();
    let mut j: usize = 0;
    while j < matrix.cols
        invariant
            matrix.wf(),
            j <= matrix.cols,
            result@.len() == j,
            forall|b: int|
                0 <= b < j ==> (#[trigger] result@[b])@.len() == matrix.rows && forall|a: int|
                    0 <= a < matrix.rows ==> result@[b]@[a]@ == matrix.data@[a]@[b]@,
        decreases matrix.cols - j,
    {
        let mut row: Vec<String> = Vec::new();
        let mut i: usize = 0;
        while i < matrix.rows
            invariant
                matrix.wf(),
                j < matrix.cols,
                i <= matrix.rows,
                row@.len() == i,
                forall|a: int| 0 <= a < i ==> (#[trigger] row@[a])@ == matrix.data@[a]@[j as int]@,
            decreases matrix.rows - i,
        {
            row.push(matrix.data[i][j].clone());
            i += 1;
        }
        result.push(row);
        j += 1;
    }
    let r = Matrix { rows: matrix.cols, cols: matrix.rows, data: result };
    proof {
        assert(r.grid() =~~= transpose_grid(matrix.rows as int, matrix.cols as int, matrix.grid()));
    }
    r
}

} // verus!

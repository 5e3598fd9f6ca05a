use crate::errors::MatrixError;
use vstd::prelude::*;
use vstd::string::*;

verus! {

/// A strictly rectangular matrix of textual cells, row-major.
///
/// Invariant (`wf`): `data` holds exactly `rows` rows and every row holds
/// exactly `cols` cells. A matrix with `rows == 0` or `cols == 0` is a valid,
/// degenerate value. Cells are editable text; they are parsed into exact
/// rational numbers on demand by the arithmetic operations.
#[derive(Debug, Clone, PartialEq, Eq)]
pub struct Matrix {
    pub rows: usize,
    pub cols: usize,
    pub data: Vec<Vec<String>>,
}

/// The column count a row grid implies: the first row's length, `0` for an
/// empty grid.
pub open spec fn first_row_len(data: Seq<Vec<String>>) -> int {
    if data.len() == 0 {
        0
    } else {
        data[0]@.len() as int
    }
}

/// Whether every row of the grid has the first row's length.
pub open spec fn rectangular(data: Seq<Vec<String>>) -> bool {
    forall|i: int| 0 <= i < data.len() ==> (#[trigger] data[i])@.len() == first_row_len(data)
}

impl Matrix {
    /// The standing shape invariant every operation assumes and preserves.
    pub open spec fn wf(self) -> bool {
        &&& self.data@.len() == self.rows
        &&& forall|i: int|
            0 <= i < self.data@.len() ==> (#[trigger] self.data@[i])@.len() == self.cols
    }

    /// The text of the cell in row `i`, column `j`.
    pub open spec fn cell(self, i: int, j: int) -> Seq<char> {
        self.data@[i]@[j]@
    }

    /// The whole matrix as a mathematical grid of character sequences.
    pub open spec fn grid(self) -> Seq<Seq<Seq<char>>> {
        Seq::new(
            self.data@.len(),
            |i: int| Seq::new(self.data@[i]@.len(), |j: int| self.data@[i]@[j]@),
        )
    }

    /// Wraps caller-supplied rows into a matrix.
    ///
    /// Fails with `NotRectangular` exactly when some row's length differs
    /// from the first row's; on success the rows are stored verbatim, with
    /// `rows` their count and `cols` the first row's length (`0` when there
    /// are no rows).
    pub fn new(data: Vec<Vec<String>>) -> (r: Result<Matrix, MatrixError>)
        ensures
            match r {
                Ok(m) => {
                    &&& rectangular(data@)
                    &&& m.wf()
                    &&& m.rows == data@.len()
                    &&& m.cols == first_row_len(data@)
                    &&& m.data@ == data@
                },
                Err(e) => {
                    &&& e == MatrixError::NotRectangular
                    &&& !rectangular(data@)
                },
            },
    {
        let rows = data.len();
        let cols = if rows == 0 {
            0
        } else {
            data[0].len()
        };
        let mut i: usize = 0;
        while i < rows
            invariant
                i <= rows,
                rows == data@.len(),
                cols == first_row_len(data@),
                forall|k: int| 0 <= k < i ==> (#[trigger] data@[k])@.len() == cols,
            decreases rows - i,
        {
            if data[i].len() != cols {
                return Err(MatrixError::NotRectangular);
            }
            i += 1;
        }
        Ok(Matrix { rows, cols, data })
    }

    /// A `rows x cols` matrix with every cell the textual zero value.
    ///
    /// The explicit factory behind any "freshly created" default shape: the
    /// caller chooses the shape, the core owns no global configuration.
    pub fn zero_filled(rows: usize, cols: usize) -> (m: Matrix)
        ensures
            m.wf(),
            m.rows == rows,
            m.cols == cols,
            forall|i: int, j: int| 0 <= i < rows && 0 <= j < cols ==> m.cell(i, j) == "0"@,
    {
        let mut data: Vec<Vec<String>> = Vec::new();
        let mut i: usize = 0;
        while i < rows
            invariant
                i <= rows,
                data@.len() == i,
                forall|k: int|
                    0 <= k < i ==> (#[trigger] data@[k])@.len() == cols && forall|j: int|
                        0 <= j < cols ==> data@[k]@[j]@ == "0"@,
            decreases rows - i,
        {
            let mut row: Vec<String> = Vec::new();
            let mut j: usize = 0;
            while j < cols
                invariant
                    j <= cols,
                    row@.len() == j,
                    forall|k: int| 0 <= k < j ==> (#[trigger] row@[k])@ == "0"@,
                decreases cols - j,
            {
                row.push(String::from_str("0"));
                j += 1;
            }
            data.push(row);
            i += 1;
        }
        Matrix { rows, cols, data }
    }

    /// Appends one row of textual zeros of length `cols`.
    pub fn add_row(&mut self)
        requires
            old(self).wf(),
            old(self).rows < usize::MAX,
        ensures
            final(self).wf(),
            final(self).rows == old(self).rows + 1,
            final(self).cols == old(self).cols,
            forall|i: int| 0 <= i < old(self).rows ==> final(self).data@[i] == old(self).data@[i],
            forall|j: int|
                0 <= j < old(self).cols ==> final(self).cell(old(self).rows as int, j) == "0"@,
    {
        let cols = self.cols;
        let mut row: Vec<String> = Vec::new();
        let mut j: usize = 0;
        while j < cols
            invariant
                j <= cols,
                row@.len() == j,
                forall|k: int| 0 <= k < j ==> (#[trigger] row@[k])@ == "0"@,
            decreases cols - j,
        {
            row.push(String::from_str("0"));
            j += 1;
        }
        self.data.push(row);
        self.rows = self.rows + 1;
    }

    /// Removes the last row, if any; a matrix that already has no rows is
    /// left unchanged (the floor this core applies uniformly is zero rows).
    pub fn remove_row(&mut self)
        requires
            old(self).wf(),
        ensures
            final(self).wf(),
            old(self).rows == 0 ==> *final(self) == *old(self),
            old(self).rows > 0 ==> {
                &&& final(self).rows == old(self).rows - 1
                &&& final(self).cols == old(self).cols
                &&& final(self).data@ == old(self).data@.drop_last()
            },
    {
        if self.rows > 0 {
            self.data.pop();
            self.rows = self.rows - 1;
        }
    }

    /// Appends one textual-zero cell to every row.
    pub fn add_col(&mut self)
        requires
            old(self).wf(),
            old(self).cols < usize::MAX,
        ensures
            final(self).wf(),
            final(self).rows == old(self).rows,
            final(self).cols == old(self).cols + 1,
            forall|i: int|
                0 <= i < old(self).rows ==> {
                    &&& (#[trigger] final(self).data@[i])@.len() == old(self).cols + 1
                    &&& forall|j: int|
                        0 <= j < old(self).cols ==> final(self).data@[i]@[j] == old(
                            self,
                        ).data@[i]@[j]
                    &&& final(self).cell(i, old(self).cols as int) == "0"@
                },
    {
        let rows = self.rows;
        let mut i: usize = 0;
        while i < rows
            invariant
                i <= rows,
                rows == old(self).rows,
                self.rows == old(self).rows,
                self.cols == old(self).cols,
                self.data@.len() == old(self).data@.len(),
                old(self).wf(),
                forall|k: int| i <= k < rows ==> self.data@[k] == old(self).data@[k],
                forall|k: int|
                    0 <= k < i ==> {
                        &&& (#[trigger] self.data@[k])@.len() == old(self).cols + 1
                        &&& forall|j: int|
                            0 <= j < old(self).cols ==> self.data@[k]@[j] == old(self).data@[k]@[j]
                        &&& self.data@[k]@[old(self).cols as int]@ == "0"@
                    },
            decreases rows - i,
        {
            self.data[i].push(String::from_str("0"));
            i += 1;
        }
        self.cols = self.cols + 1;
    }

    /// Removes the last cell of every row, if any; a matrix that already has
    /// no columns is left unchanged.
    pub fn remove_col(&mut self)
        requires
            old(self).wf(),
        ensures
            final(self).wf(),
            old(self).cols == 0 ==> *final(self) == *old(self),
            old(self).cols > 0 ==> {
                &&& final(self).rows == old(self).rows
                &&& final(self).cols == old(self).cols - 1
                &&& forall|i: int|
                    0 <= i < old(self).rows ==> (#[trigger] final(self).data@[i])@ == old(
                        self,
                    ).data@[i]@.drop_last()
            },
    {
        if self.cols > 0 {
            let rows = self.rows;
            let mut i: usize = 0;
            while i < rows
                invariant
                    i <= rows,
                    rows == old(self).rows,
                    self.rows == old(self).rows,
                    self.cols == old(self).cols,
                    self.data@.len() == old(self).data@.len(),
                    old(self).wf(),
                    old(self).cols > 0,
                    forall|k: int| i <= k < rows ==> self.data@[k] == old(self).data@[k],
                    forall|k: int|
                        0 <= k < i ==> (#[trigger] self.data@[k])@ == old(
                            self,
                        ).data@[k]@.drop_last(),
                decreases rows - i,
            {
                self.data[i].pop();
                i += 1;
            }
            self.cols = self.cols - 1;
        }
    }
}

} // verus!

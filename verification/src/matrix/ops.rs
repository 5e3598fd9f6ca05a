use crate::decimal::{cell_den, cell_num, format_pair, format_rational, parse_cell, parseable};
use crate::errors::MatrixError;
use crate::matrix::types::Matrix;
use crate::rational::{norm_fits, pair_den, red_den, red_num, sum_num, Rational};
use vstd::prelude::*;

verus! {

/// Whether every cell of the matrix parses as a number that fits.
pub open spec fn all_parseable(m: Matrix) -> bool {
    forall|i: int, j: int|
        0 <= i < m.rows && 0 <= j < m.cols ==> parseable(#[trigger] m.cell(i, j))
}

/// The exact numerator of `a[i][j] + b[i][j]` over the common denominator.
pub open spec fn entry_sum_num(a: Matrix, b: Matrix, i: int, j: int) -> int {
    cell_num(a.cell(i, j)) * cell_den(b.cell(i, j)) + cell_num(b.cell(i, j)) * cell_den(
        a.cell(i, j),
    )
}

/// The exact numerator of `a[i][j] - b[i][j]` over the common denominator.
pub open spec fn entry_diff_num(a: Matrix, b: Matrix, i: int, j: int) -> int {
    cell_num(a.cell(i, j)) * cell_den(b.cell(i, j)) - cell_num(b.cell(i, j)) * cell_den(
        a.cell(i, j),
    )
}

/// The common denominator of the element-wise combination at `(i, j)`.
pub open spec fn entry_den(a: Matrix, b: Matrix, i: int, j: int) -> int {
    cell_den(a.cell(i, j)) * cell_den(b.cell(i, j))
}

/// Whether every element-wise sum fits the cell type once reduced.
pub open spec fn sum_fits(a: Matrix, b: Matrix) -> bool {
    forall|i: int, j: int|
        0 <= i < a.rows && 0 <= j < a.cols ==> #[trigger] norm_fits(
            entry_sum_num(a, b, i, j),
            entry_den(a, b, i, j),
        )
}

/// Whether every element-wise difference fits the cell type once reduced.
pub open spec fn diff_fits(a: Matrix, b: Matrix) -> bool {
    forall|i: int, j: int|
        0 <= i < a.rows && 0 <= j < a.cols ==> #[trigger] norm_fits(
            entry_diff_num(a, b, i, j),
            entry_den(a, b, i, j),
        )
}

/// The running value of the dot product of row `i` of `a` and column `j` of
/// `b` over its first `k` terms, reduced to lowest terms after every term,
/// exactly as the multiplication loop computes it. The empty product sum is
/// `0/1`.
pub open spec fn dot_acc(a: Matrix, b: Matrix, i: int, j: int, k: int) -> (int, int)
    decreases k,
{
    if k <= 0 {
        (0, 1)
    } else {
        let prev = dot_acc(a, b, i, j, k - 1);
        let tn = red_num(term_num(a, b, i, j, k - 1), term_den(a, b, i, j, k - 1));
        let td = red_den(term_num(a, b, i, j, k - 1), term_den(a, b, i, j, k - 1));
        (
            red_num(prev.0 * td + tn * prev.1, prev.1 * td),
            red_den(prev.0 * td + tn * prev.1, prev.1 * td),
        )
    }
}

/// The exact numerator of the term `a[i][k] * b[k][j]`.
pub open spec fn term_num(a: Matrix, b: Matrix, i: int, j: int, k: int) -> int {
    cell_num(a.cell(i, k)) * cell_num(b.cell(k, j))
}

/// The exact denominator of the term `a[i][k] * b[k][j]`.
pub open spec fn term_den(a: Matrix, b: Matrix, i: int, j: int, k: int) -> int {
    cell_den(a.cell(i, k)) * cell_den(b.cell(k, j))
}

/// Whether term `k` of the dot product at `(i, j)` and its accumulation both
/// fit the cell type once reduced.
pub open spec fn dot_step_fits(a: Matrix, b: Matrix, i: int, j: int, k: int) -> bool {
    let prev = dot_acc(a, b, i, j, k);
    let tn = red_num(term_num(a, b, i, j, k), term_den(a, b, i, j, k));
    let td = red_den(term_num(a, b, i, j, k), term_den(a, b, i, j, k));
    &&& norm_fits(term_num(a, b, i, j, k), term_den(a, b, i, j, k))
    &&& norm_fits(prev.0 * td + tn * prev.1, prev.1 * td)
}

/// The dot product of row `i` of `a` and column `j` of `b` over its first
/// `k` terms, as one exact unreduced fraction over the product of the
/// terms' denominators.
pub open spec fn dot_exact(a: Matrix, b: Matrix, i: int, j: int, k: int) -> (int, int)
    decreases k,
{
    if k <= 0 {
        (0, 1)
    } else {
        let prev = dot_exact(a, b, i, j, k - 1);
        (
            prev.0 * term_den(a, b, i, j, k - 1) + term_num(a, b, i, j, k - 1) * prev.1,
            prev.1 * term_den(a, b, i, j, k - 1),
        )
    }
}

/// Two fractions with positive denominators that cross-multiply equally with
/// a common middle fraction cross-multiply equally with each other.
proof fn lemma_cross_trans(a0: int, a1: int, b0: int, b1: int, c0: int, c1: int)
    requires
        a1 >= 1,
        b1 >= 1,
        c1 >= 1,
        a0 * b1 == b0 * a1,
        b0 * c1 == c0 * b1,
    ensures
        a0 * c1 == c0 * a1,
{
    assert((a0 * c1) * b1 == (c0 * a1) * b1) by (nonlinear_arith)
        requires
            a0 * b1 == b0 * a1,
            b0 * c1 == c0 * b1,
    ;
    assert(a0 * c1 == c0 * a1) by (nonlinear_arith)
        requires
            (a0 * c1) * b1 == (c0 * a1) * b1,
            b1 >= 1,
    ;
}

/// One accumulation step keeps the denoted value: adding value-equal terms
/// to value-equal sums over positive denominators gives value-equal results.
proof fn lemma_step_value(p0: int, p1: int, e0: int, e1: int, tn: int, td: int, tn0: int, td0: int)
    requires
        p1 >= 1,
        e1 >= 1,
        td >= 1,
        td0 >= 1,
        p0 * e1 == e0 * p1,
        tn * td0 == tn0 * td,
    ensures
        p1 * td >= 1,
        e1 * td0 >= 1,
        (p0 * td + tn * p1) * (e1 * td0) == (e0 * td0 + tn0 * e1) * (p1 * td),
{
    assert(p1 * td >= 1) by (nonlinear_arith)
        requires
            p1 >= 1,
            td >= 1,
    ;
    assert(e1 * td0 >= 1) by (nonlinear_arith)
        requires
            e1 >= 1,
            td0 >= 1,
    ;
    vstd::arithmetic::mul::lemma_mul_is_distributive_add_other_way(e1 * td0, p0 * td, tn * p1);
    assert((p0 * td) * (e1 * td0) == (p0 * e1) * (td * td0)) by (nonlinear_arith);
    assert((tn * p1) * (e1 * td0) == (tn * td0) * (p1 * e1)) by (nonlinear_arith);
    vstd::arithmetic::mul::lemma_mul_is_distributive_add_other_way(p1 * td, e0 * td0, tn0 * e1);
    assert((e0 * td0) * (p1 * td) == (e0 * p1) * (td * td0)) by (nonlinear_arith);
    assert((tn0 * e1) * (p1 * td) == (tn0 * td) * (p1 * e1)) by (nonlinear_arith);
}

/// Reducing after every term does not change the value: the accumulation
/// `dot_acc`, which the multiplication loop computes, and the plain
/// unreduced dot product `dot_exact` cross-multiply equally, so cell
/// `(i, j)` of a product matrix denotes exactly the sum of the products of
/// the parsed operand cells.
pub proof fn lemma_dot_acc_value(a: Matrix, b: Matrix, i: int, j: int, k: int)
    ensures
        dot_acc(a, b, i, j, k).1 >= 1,
        dot_exact(a, b, i, j, k).1 >= 1,
        dot_acc(a, b, i, j, k).0 * dot_exact(a, b, i, j, k).1 == dot_exact(a, b, i, j, k).0
            * dot_acc(a, b, i, j, k).1,
    decreases k,
{
    if k > 0 {
        lemma_dot_acc_value(a, b, i, j, k - 1);
        let p = dot_acc(a, b, i, j, k - 1);
        let e = dot_exact(a, b, i, j, k - 1);
        let tn0 = term_num(a, b, i, j, k - 1);
        let td0 = term_den(a, b, i, j, k - 1);
        assert(td0 >= 1) by {
            crate::decimal::lemma_pow10_pos(
                crate::decimal::den_exp(crate::decimal::number_body(a.cell(i, k - 1))) as nat,
            );
            crate::decimal::lemma_pow10_pos(
                crate::decimal::den_exp(crate::decimal::number_body(b.cell(k - 1, j))) as nat,
            );
            assert(cell_den(a.cell(i, k - 1)) * cell_den(b.cell(k - 1, j)) >= 1)
                by (nonlinear_arith)
                requires
                    cell_den(a.cell(i, k - 1)) >= 1,
                    cell_den(b.cell(k - 1, j)) >= 1,
            ;
        }
        let tn = red_num(tn0, td0);
        let td = red_den(tn0, td0);
        crate::rational::lemma_red_value(tn0, td0);
        let s0 = p.0 * td + tn * p.1;
        let s1 = p.1 * td;
        let e0 = e.0 * td0 + tn0 * e.1;
        let e1 = e.1 * td0;
        lemma_step_value(p.0, p.1, e.0, e.1, tn, td, tn0, td0);
        crate::rational::lemma_red_value(s0, s1);
        lemma_cross_trans(red_num(s0, s1), red_den(s0, s1), s0, s1, e0, e1);
    }
}

/// Whether the whole multiplication fits the cell type, step by step.
pub open spec fn mul_fits(a: Matrix, b: Matrix) -> bool {
    forall|i: int, j: int, k: int|
        0 <= i < a.rows && 0 <= j < b.cols && 0 <= k < a.cols ==> #[trigger] dot_step_fits(
            a,
            b,
            i,
            j,
            k,
        )
}

impl Matrix {
    /// Parses every cell into an exact rational, row by row.
    ///
    /// Fails with `InvalidNumber` exactly when some cell does not parse; on
    /// success each entry is the denoted value, verbatim.
    pub fn to_numbers(&self) -> (r: Result<Vec<Vec<Rational>>, MatrixError>)
        requires
            self.wf(),
        ensures
            match r {
                Ok(g) => {
                    &&& all_parseable(*self)
                    &&& g@.len() == self.rows
                    &&& forall|i: int|
                        0 <= i < self.rows ==> (#[trigger] g@[i])@.len() == self.cols
                    &&& forall|i: int, j: int|
                        0 <= i < self.rows && 0 <= j < self.cols ==> {
                            &&& (#[trigger] g@[i]@[j]).wf()
                            &&& g@[i]@[j].num == cell_num(self.cell(i, j))
                            &&& g@[i]@[j].den == cell_den(self.cell(i, j))
                        }
                },
                Err(e) => {
                    &&& e == MatrixError::InvalidNumber
                    &&& !all_parseable(*self)
                },
            },
    {
        let mut g: Vec<Vec<Rational>> = Vec::new();
        let mut i: usize = 0;
        while i < self.rows
            invariant
                self.wf(),
                i <= self.rows,
                g@.len() == i,
                forall|a: int| 0 <= a < i ==> (#[trigger] g@[a])@.len() == self.cols,
                forall|a: int, b: int|
                    0 <= a < i && 0 <= b < self.cols ==> parseable(#[trigger] self.cell(a, b)),
                forall|a: int, b: int|
                    0 <= a < i && 0 <= b < self.cols ==> {
                        &&& (#[trigger] g@[a]@[b]).wf()
                        &&& g@[a]@[b].num == cell_num(self.cell(a, b))
                        &&& g@[a]@[b].den == cell_den(self.cell(a, b))
                    },
            decreases self.rows - i,
        {
            let mut row: Vec<Rational> = Vec::new();
            let mut j: usize = 0;
            while j < self.cols
                invariant
                    self.wf(),
                    i < self.rows,
                    j <= self.cols,
                    row@.len() == j,
                    forall|b: int|
                        0 <= b < j ==> parseable(#[trigger] self.cell(i as int, b)),
                    forall|b: int|
                        0 <= b < j ==> {
                            &&& (#[trigger] row@[b]).wf()
                            &&& row@[b].num == cell_num(self.cell(i as int, b))
                            &&& row@[b].den == cell_den(self.cell(i as int, b))
                        },
                decreases self.cols - j,
            {
                match parse_cell(self.data[i][j].as_str()) {
                    Some(v) => {
                        proof {
                            assert(self.cell(i as int, j as int) == self.data@[i as int]@[j
                                as int]@);
                            assert(parseable(self.cell(i as int, j as int)));
                            assert(v.num == cell_num(self.cell(i as int, j as int)));
                            assert(v.den == cell_den(self.cell(i as int, j as int)));
                        }
                        row.push(v);
                    },
                    None => {
                        proof {
                            assert(self.cell(i as int, j as int) == self.data@[i as int]@[j
                                as int]@);
                            assert(!parseable(self.cell(i as int, j as int)));
                        }
                        return Err(MatrixError::InvalidNumber);
                    },
                }
                j += 1;
            }
            g.push(row);
            i += 1;
        }
        Ok(g)
    }

    /// Formats a grid of exact rationals back into a textual matrix of the
    /// given shape; every cell is rendered as `format_pair` specifies.
    pub fn from_numbers(rows: usize, cols: usize, g: &Vec<Vec<Rational>>) -> (m: Matrix)
        requires
            g@.len() == rows,
            forall|i: int| 0 <= i < rows ==> (#[trigger] g@[i])@.len() == cols,
            forall|i: int, j: int|
                0 <= i < rows && 0 <= j < cols ==> (#[trigger] g@[i]@[j]).wf(),
        ensures
            m.wf(),
            m.rows == rows,
            m.cols == cols,
            forall|i: int, j: int|
                0 <= i < rows && 0 <= j < cols ==> m.cell(i, j) == format_pair(
                    g@[i]@[j].num as int,
                    g@[i]@[j].den as int,
                ),
    {
        let mut data: Vec<Vec<String>> = Vec::new();
        let mut i: usize = 0;
        while i < rows
            invariant
                g@.len() == rows,
                forall|a: int| 0 <= a < rows ==> (#[trigger] g@[a])@.len() == cols,
                forall|a: int, b: int|
                    0 <= a < rows && 0 <= b < cols ==> (#[trigger] g@[a]@[b]).wf(),
                i <= rows,
                data@.len() == i,
                forall|a: int| 0 <= a < i ==> (#[trigger] data@[a])@.len() == cols,
                forall|a: int, b: int|
                    0 <= a < i && 0 <= b < cols ==> (#[trigger] data@[a]@[b])@ == format_pair(
                        g@[a]@[b].num as int,
                        g@[a]@[b].den as int,
                    ),
            decreases rows - i,
        {
            let mut row: Vec<String> = Vec::new();
            let mut j: usize = 0;
            while j < cols
                invariant
                    g@.len() == rows,
                    forall|a: int| 0 <= a < rows ==> (#[trigger] g@[a])@.len() == cols,
                    forall|a: int, b: int|
                        0 <= a < rows && 0 <= b < cols ==> (#[trigger] g@[a]@[b]).wf(),
                    i < rows,
                    j <= cols,
                    row@.len() == j,
                    forall|b: int|
                        0 <= b < j ==> (#[trigger] row@[b])@ == format_pair(
                            g@[i as int]@[b].num as int,
                            g@[i as int]@[b].den as int,
                        ),
                decreases cols - j,
            {
                row.push(format_rational(&g[i][j]));
                j += 1;
            }
            data.push(row);
            i += 1;
        }
        Matrix { rows, cols, data }
    }

    /// Element-wise addition.
    ///
    /// Parse errors take priority; then the operands must share their shape
    /// exactly; the result has that shape and cell `(i, j)` is the rendered
    /// reduced sum of the operands' cells at `(i, j)`.
    #[verifier::loop_isolation(false)]
    pub fn add(&self, rhs: &Matrix) -> (r: Result<Matrix, MatrixError>)
        requires
            self.wf(),
            rhs.wf(),
        ensures
            match r {
                Ok(m) => {
                    &&& all_parseable(*self) && all_parseable(*rhs)
                    &&& self.rows == rhs.rows && self.cols == rhs.cols
                    &&& sum_fits(*self, *rhs)
                    &&& m.wf() && m.rows == self.rows && m.cols == self.cols
                    &&& forall|i: int, j: int|
                        0 <= i < self.rows && 0 <= j < self.cols ==> m.cell(i, j) == format_pair(
                            red_num(entry_sum_num(*self, *rhs, i, j), entry_den(*self, *rhs, i, j)),
                            red_den(entry_sum_num(*self, *rhs, i, j), entry_den(*self, *rhs, i, j)),
                        )
                },
                Err(e) => {
                    &&& (e == MatrixError::InvalidNumber <==> !(all_parseable(*self)
                        && all_parseable(*rhs)))
                    &&& (e == MatrixError::ShapeMismatch <==> all_parseable(*self)
                        && all_parseable(*rhs) && !(self.rows == rhs.rows && self.cols
                        == rhs.cols))
                    &&& (e == MatrixError::Overflow ==> all_parseable(*self) && all_parseable(*rhs)
                        && self.rows == rhs.rows && self.cols == rhs.cols && !sum_fits(
                        *self,
                        *rhs,
                    ))
                    &&& (e == MatrixError::InvalidNumber || e == MatrixError::ShapeMismatch || e
                        == MatrixError::Overflow)
                },
            },
            all_parseable(*self) && all_parseable(*rhs) && self.rows == rhs.rows && self.cols
                == rhs.cols && sum_fits(*self, *rhs) ==> r is Ok,
    {
        let a = match self.to_numbers() {
            Ok(g) => g,
            Err(e) => {
                return Err(e);
            },
        };
        let b = match rhs.to_numbers() {
            Ok(g) => g,
            Err(e) => {
                return Err(e);
            },
        };
        if self.rows != rhs.rows || self.cols != rhs.cols {
            return Err(MatrixError::ShapeMismatch);
        }
        let rows = self.rows;
        let cols = self.cols;
        let mut g: Vec<Vec<Rational>> = Vec::new();
        let mut i: usize = 0;
        while i < rows
            invariant
                self.wf(),
                rhs.wf(),
                rows == self.rows && cols == self.cols,
                rhs.rows == rows && rhs.cols == cols,
                all_parseable(*self) && all_parseable(*rhs),
                a@.len() == rows && b@.len() == rows,
                forall|x: int|
                    0 <= x < rows ==> (#[trigger] a@[x])@.len() == cols && (#[trigger] b@[x])@.len()
                        == cols,
                forall|x: int, y: int|
                    0 <= x < rows && 0 <= y < cols ==> {
                        &&& (#[trigger] a@[x]@[y]).wf()
                        &&& a@[x]@[y].num == cell_num(self.cell(x, y))
                        &&& a@[x]@[y].den == cell_den(self.cell(x, y))
                        &&& (#[trigger] b@[x]@[y]).wf()
                        &&& b@[x]@[y].num == cell_num(rhs.cell(x, y))
                        &&& b@[x]@[y].den == cell_den(rhs.cell(x, y))
                    },
                i <= rows,
                g@.len() == i,
                forall|x: int| 0 <= x < i ==> (#[trigger] g@[x])@.len() == cols,
                forall|x: int, y: int|
                    0 <= x < i && 0 <= y < cols ==> #[trigger] norm_fits(
                        entry_sum_num(*self, *rhs, x, y),
                        entry_den(*self, *rhs, x, y),
                    ),
                forall|x: int, y: int|
                    0 <= x < i && 0 <= y < cols ==> {
                        &&& (#[trigger] g@[x]@[y]).wf()
                        &&& g@[x]@[y].num == red_num(
                            entry_sum_num(*self, *rhs, x, y),
                            entry_den(*self, *rhs, x, y),
                        )
                        &&& g@[x]@[y].den == red_den(
                            entry_sum_num(*self, *rhs, x, y),
                            entry_den(*self, *rhs, x, y),
                        )
                    },
            decreases rows - i,
        {
            let mut row: Vec<Rational> = Vec::new();
            let mut j: usize = 0;
            while j < cols
                invariant
                    self.wf(),
                    rhs.wf(),
                    rows == self.rows && cols == self.cols,
                    rhs.rows == rows && rhs.cols == cols,
                    a@.len() == rows && b@.len() == rows,
                    forall|x: int|
                        0 <= x < rows ==> (#[trigger] a@[x])@.len() == cols && (
                        #[trigger] b@[x])@.len() == cols,
                    forall|x: int, y: int|
                        0 <= x < rows && 0 <= y < cols ==> {
                            &&& (#[trigger] a@[x]@[y]).wf()
                            &&& a@[x]@[y].num == cell_num(self.cell(x, y))
                            &&& a@[x]@[y].den == cell_den(self.cell(x, y))
                            &&& (#[trigger] b@[x]@[y]).wf()
                            &&& b@[x]@[y].num == cell_num(rhs.cell(x, y))
                            &&& b@[x]@[y].den == cell_den(rhs.cell(x, y))
                        },
                    i < rows,
                    j <= cols,
                    row@.len() == j,
                    forall|y: int|
                        0 <= y < j ==> #[trigger] norm_fits(
                            entry_sum_num(*self, *rhs, i as int, y),
                            entry_den(*self, *rhs, i as int, y),
                        ),
                    forall|y: int|
                        0 <= y < j ==> {
                            &&& (#[trigger] row@[y]).wf()
                            &&& row@[y].num == red_num(
                                entry_sum_num(*self, *rhs, i as int, y),
                                entry_den(*self, *rhs, i as int, y),
                            )
                            &&& row@[y].den == red_den(
                                entry_sum_num(*self, *rhs, i as int, y),
                                entry_den(*self, *rhs, i as int, y),
                            )
                        },
                decreases cols - j,
            {
                match a[i][j].add(&b[i][j]) {
                    Some(v) => {
                        proof {
                            assert(sum_num(a@[i as int]@[j as int], b@[i as int]@[j as int])
                                == entry_sum_num(*self, *rhs, i as int, j as int));
                            assert(pair_den(a@[i as int]@[j as int], b@[i as int]@[j as int])
                                == entry_den(*self, *rhs, i as int, j as int));
                        }
                        row.push(v);
                    },
                    None => {
                        proof {
                            assert(!norm_fits(
                                entry_sum_num(*self, *rhs, i as int, j as int),
                                entry_den(*self, *rhs, i as int, j as int),
                            ));
                        }
                        return Err(MatrixError::Overflow);
                    },
                }
                j += 1;
            }
            g.push(row);
            i += 1;
        }
        Ok(Matrix::from_numbers(rows, cols, &g))
    }

    /// Element-wise subtraction; shaped and classified exactly as `add`.
    #[verifier::loop_isolation(false)]
    pub fn subtract(&self, rhs: &Matrix) -> (r: Result<Matrix, MatrixError>)
        requires
            self.wf(),
            rhs.wf(),
        ensures
            match r {
                Ok(m) => {
                    &&& all_parseable(*self) && all_parseable(*rhs)
                    &&& self.rows == rhs.rows && self.cols == rhs.cols
                    &&& diff_fits(*self, *rhs)
                    &&& m.wf() && m.rows == self.rows && m.cols == self.cols
                    &&& forall|i: int, j: int|
                        0 <= i < self.rows && 0 <= j < self.cols ==> m.cell(i, j) == format_pair(
                            red_num(
                                entry_diff_num(*self, *rhs, i, j),
                                entry_den(*self, *rhs, i, j),
                            ),
                            red_den(
                                entry_diff_num(*self, *rhs, i, j),
                                entry_den(*self, *rhs, i, j),
                            ),
                        )
                },
                Err(e) => {
                    &&& (e == MatrixError::InvalidNumber <==> !(all_parseable(*self)
                        && all_parseable(*rhs)))
                    &&& (e == MatrixError::ShapeMismatch <==> all_parseable(*self)
                        && all_parseable(*rhs) && !(self.rows == rhs.rows && self.cols
                        == rhs.cols))
                    &&& (e == MatrixError::Overflow ==> all_parseable(*self) && all_parseable(*rhs)
                        && self.rows == rhs.rows && self.cols == rhs.cols && !diff_fits(
                        *self,
                        *rhs,
                    ))
                    &&& (e == MatrixError::InvalidNumber || e == MatrixError::ShapeMismatch || e
                        == MatrixError::Overflow)
                },
            },
            all_parseable(*self) && all_parseable(*rhs) && self.rows == rhs.rows && self.cols
                == rhs.cols && diff_fits(*self, *rhs) ==> r is Ok,
    {
        let a = match self.to_numbers() {
            Ok(g) => g,
            Err(e) => {
                return Err(e);
            },
        };
        let b = match rhs.to_numbers() {
            Ok(g) => g,
            Err(e) => {
                return Err(e);
            },
        };
        if self.rows != rhs.rows || self.cols != rhs.cols {
            return Err(MatrixError::ShapeMismatch);
        }
        let rows = self.rows;
        let cols = self.cols;
        let mut g: Vec<Vec<Rational>> = Vec::new();
        let mut i: usize = 0;
        while i < rows
            invariant
                self.wf(),
                rhs.wf(),
                rows == self.rows && cols == self.cols,
                rhs.rows == rows && rhs.cols == cols,
                all_parseable(*self) && all_parseable(*rhs),
                a@.len() == rows && b@.len() == rows,
                forall|x: int|
                    0 <= x < rows ==> (#[trigger] a@[x])@.len() == cols && (#[trigger] b@[x])@.len()
                        == cols,
                forall|x: int, y: int|
                    0 <= x < rows && 0 <= y < cols ==> {
                        &&& (#[trigger] a@[x]@[y]).wf()
                        &&& a@[x]@[y].num == cell_num(self.cell(x, y))
                        &&& a@[x]@[y].den == cell_den(self.cell(x, y))
                        &&& (#[trigger] b@[x]@[y]).wf()
                        &&& b@[x]@[y].num == cell_num(rhs.cell(x, y))
                        &&& b@[x]@[y].den == cell_den(rhs.cell(x, y))
                    },
                i <= rows,
                g@.len() == i,
                forall|x: int| 0 <= x < i ==> (#[trigger] g@[x])@.len() == cols,
                forall|x: int, y: int|
                    0 <= x < i && 0 <= y < cols ==> #[trigger] norm_fits(
                        entry_diff_num(*self, *rhs, x, y),
                        entry_den(*self, *rhs, x, y),
                    ),
                forall|x: int, y: int|
                    0 <= x < i && 0 <= y < cols ==> {
                        &&& (#[trigger] g@[x]@[y]).wf()
                        &&& g@[x]@[y].num == red_num(
                            entry_diff_num(*self, *rhs, x, y),
                            entry_den(*self, *rhs, x, y),
                        )
                        &&& g@[x]@[y].den == red_den(
                            entry_diff_num(*self, *rhs, x, y),
                            entry_den(*self, *rhs, x, y),
                        )
                    },
            decreases rows - i,
        {
            let mut row: Vec<Rational> = Vec::new();
            let mut j: usize = 0;
            while j < cols
                invariant
                    self.wf(),
                    rhs.wf(),
                    rows == self.rows && cols == self.cols,
                    rhs.rows == rows && rhs.cols == cols,
                    a@.len() == rows && b@.len() == rows,
                    forall|x: int|
                        0 <= x < rows ==> (#[trigger] a@[x])@.len() == cols && (
                        #[trigger] b@[x])@.len() == cols,
                    forall|x: int, y: int|
                        0 <= x < rows && 0 <= y < cols ==> {
                            &&& (#[trigger] a@[x]@[y]).wf()
                            &&& a@[x]@[y].num == cell_num(self.cell(x, y))
                            &&& a@[x]@[y].den == cell_den(self.cell(x, y))
                            &&& (#[trigger] b@[x]@[y]).wf()
                            &&& b@[x]@[y].num == cell_num(rhs.cell(x, y))
                            &&& b@[x]@[y].den == cell_den(rhs.cell(x, y))
                        },
                    i < rows,
                    j <= cols,
                    row@.len() == j,
                    forall|y: int|
                        0 <= y < j ==> #[trigger] norm_fits(
                            entry_diff_num(*self, *rhs, i as int, y),
                            entry_den(*self, *rhs, i as int, y),
                        ),
                    forall|y: int|
                        0 <= y < j ==> {
                            &&& (#[trigger] row@[y]).wf()
                            &&& row@[y].num == red_num(
                                entry_diff_num(*self, *rhs, i as int, y),
                                entry_den(*self, *rhs, i as int, y),
                            )
                            &&& row@[y].den == red_den(
                                entry_diff_num(*self, *rhs, i as int, y),
                                entry_den(*self, *rhs, i as int, y),
                            )
                        },
                decreases cols - j,
            {
                match a[i][j].sub(&b[i][j]) {
                    Some(v) => {
                        proof {
                            assert(crate::rational::diff_num(
                                a@[i as int]@[j as int],
                                b@[i as int]@[j as int],
                            ) == entry_diff_num(*self, *rhs, i as int, j as int));
                            assert(pair_den(a@[i as int]@[j as int], b@[i as int]@[j as int])
                                == entry_den(*self, *rhs, i as int, j as int));
                        }
                        row.push(v);
                    },
                    None => {
                        proof {
                            assert(!norm_fits(
                                entry_diff_num(*self, *rhs, i as int, j as int),
                                entry_den(*self, *rhs, i as int, j as int),
                            ));
                        }
                        return Err(MatrixError::Overflow);
                    },
                }
                j += 1;
            }
            g.push(row);
            i += 1;
        }
        Ok(Matrix::from_numbers(rows, cols, &g))
    }

    /// Matrix multiplication.
    ///
    /// Parse errors take priority; then the left operand's column count must
    /// equal the right operand's row count; the result is `self.rows` by
    /// `rhs.cols` and cell `(i, j)` is the rendered dot product of row `i`
    /// and column `j`, accumulated term by term in lowest terms.
    /// Non-commutative: both orders must be requested, and shape-checked,
    /// separately.
    #[verifier::loop_isolation(false)]
    pub fn multiply(&self, rhs: &Matrix) -> (r: Result<Matrix, MatrixError>)
        requires
            self.wf(),
            rhs.wf(),
        ensures
            match r {
                Ok(m) => {
                    &&& all_parseable(*self) && all_parseable(*rhs)
                    &&& self.cols == rhs.rows
                    &&& mul_fits(*self, *rhs)
                    &&& m.wf() && m.rows == self.rows && m.cols == rhs.cols
                    &&& forall|i: int, j: int|
                        0 <= i < self.rows && 0 <= j < rhs.cols ==> m.cell(i, j) == format_pair(
                            dot_acc(*self, *rhs, i, j, self.cols as int).0,
                            dot_acc(*self, *rhs, i, j, self.cols as int).1,
                        )
                },
                Err(e) => {
                    &&& (e == MatrixError::InvalidNumber <==> !(all_parseable(*self)
                        && all_parseable(*rhs)))
                    &&& (e == MatrixError::ShapeMismatch <==> all_parseable(*self)
                        && all_parseable(*rhs) && self.cols != rhs.rows)
                    &&& (e == MatrixError::Overflow ==> all_parseable(*self) && all_parseable(*rhs)
                        && self.cols == rhs.rows && !mul_fits(*self, *rhs))
                    &&& (e == MatrixError::InvalidNumber || e == MatrixError::ShapeMismatch || e
                        == MatrixError::Overflow)
                },
            },
            all_parseable(*self) && all_parseable(*rhs) && self.cols == rhs.rows && mul_fits(
                *self,
                *rhs,
            ) ==> r is Ok,
    {
        let a = match self.to_numbers() {
            Ok(g) => g,
            Err(e) => {
                return Err(e);
            },
        };
        let b = match rhs.to_numbers() {
            Ok(g) => g,
            Err(e) => {
                return Err(e);
            },
        };
        if self.cols != rhs.rows {
            return Err(MatrixError::ShapeMismatch);
        }
        let rows = self.rows;
        let cols = rhs.cols;
        let inner = self.cols;
        let mut g: Vec<Vec<Rational>> = Vec::new();
        let mut i: usize = 0;
        while i < rows
            invariant
                self.wf(),
                rhs.wf(),
                rows == self.rows && cols == rhs.cols && inner == self.cols,
                rhs.rows == inner,
                all_parseable(*self) && all_parseable(*rhs),
                a@.len() == rows && b@.len() == inner,
                forall|x: int| 0 <= x < rows ==> (#[trigger] a@[x])@.len() == inner,
                forall|x: int| 0 <= x < inner ==> (#[trigger] b@[x])@.len() == cols,
                forall|x: int, y: int|
                    0 <= x < rows && 0 <= y < inner ==> {
                        &&& (#[trigger] a@[x]@[y]).wf()
                        &&& a@[x]@[y].num == cell_num(self.cell(x, y))
                        &&& a@[x]@[y].den == cell_den(self.cell(x, y))
                    },
                forall|x: int, y: int|
                    0 <= x < inner && 0 <= y < cols ==> {
                        &&& (#[trigger] b@[x]@[y]).wf()
                        &&& b@[x]@[y].num == cell_num(rhs.cell(x, y))
                        &&& b@[x]@[y].den == cell_den(rhs.cell(x, y))
                    },
                i <= rows,
                g@.len() == i,
                forall|x: int| 0 <= x < i ==> (#[trigger] g@[x])@.len() == cols,
                forall|x: int, y: int, t: int|
                    0 <= x < i && 0 <= y < cols && 0 <= t < inner ==> #[trigger] dot_step_fits(
                        *self,
                        *rhs,
                        x,
                        y,
                        t,
                    ),
                forall|x: int, y: int|
                    0 <= x < i && 0 <= y < cols ==> {
                        &&& (#[trigger] g@[x]@[y]).wf()
                        &&& g@[x]@[y].num == dot_acc(*self, *rhs, x, y, inner as int).0
                        &&& g@[x]@[y].den == dot_acc(*self, *rhs, x, y, inner as int).1
                    },
            decreases rows - i,
        {
            let mut row: Vec<Rational> = Vec::new();
            let mut j: usize = 0;
            while j < cols
                invariant
                    self.wf(),
                    rhs.wf(),
                    rows == self.rows && cols == rhs.cols && inner == self.cols,
                    rhs.rows == inner,
                    all_parseable(*self) && all_parseable(*rhs),
                    a@.len() == rows && b@.len() == inner,
                    forall|x: int| 0 <= x < rows ==> (#[trigger] a@[x])@.len() == inner,
                    forall|x: int| 0 <= x < inner ==> (#[trigger] b@[x])@.len() == cols,
                    forall|x: int, y: int|
                        0 <= x < rows && 0 <= y < inner ==> {
                            &&& (#[trigger] a@[x]@[y]).wf()
                            &&& a@[x]@[y].num == cell_num(self.cell(x, y))
                            &&& a@[x]@[y].den == cell_den(self.cell(x, y))
                        },
                    forall|x: int, y: int|
                        0 <= x < inner && 0 <= y < cols ==> {
                            &&& (#[trigger] b@[x]@[y]).wf()
                            &&& b@[x]@[y].num == cell_num(rhs.cell(x, y))
                            &&& b@[x]@[y].den == cell_den(rhs.cell(x, y))
                        },
                    i < rows,
                    j <= cols,
                    row@.len() == j,
                    forall|y: int, t: int|
                        0 <= y < j && 0 <= t < inner ==> #[trigger] dot_step_fits(
                            *self,
                            *rhs,
                            i as int,
                            y,
                            t,
                        ),
                    forall|y: int|
                        0 <= y < j ==> {
                            &&& (#[trigger] row@[y]).wf()
                            &&& row@[y].num == dot_acc(*self, *rhs, i as int, y, inner as int).0
                            &&& row@[y].den == dot_acc(*self, *rhs, i as int, y, inner as int).1
                        },
                decreases cols - j,
            {
                let mut acc = Rational::zero();
                let mut k: usize = 0;
                while k < inner
                    invariant
                        self.wf(),
                        rhs.wf(),
                        rows == self.rows && cols == rhs.cols && inner == self.cols,
                        rhs.rows == inner,
                        a@.len() == rows && b@.len() == inner,
                        forall|x: int| 0 <= x < rows ==> (#[trigger] a@[x])@.len() == inner,
                        forall|x: int| 0 <= x < inner ==> (#[trigger] b@[x])@.len() == cols,
                        forall|x: int, y: int|
                            0 <= x < rows && 0 <= y < inner ==> {
                                &&& (#[trigger] a@[x]@[y]).wf()
                                &&& a@[x]@[y].num == cell_num(self.cell(x, y))
                                &&& a@[x]@[y].den == cell_den(self.cell(x, y))
                            },
                        forall|x: int, y: int|
                            0 <= x < inner && 0 <= y < cols ==> {
                                &&& (#[trigger] b@[x]@[y]).wf()
                                &&& b@[x]@[y].num == cell_num(rhs.cell(x, y))
                                &&& b@[x]@[y].den == cell_den(rhs.cell(x, y))
                            },
                        i < rows,
                        j < cols,
                        k <= inner,
                        acc.wf(),
                        acc.num == dot_acc(*self, *rhs, i as int, j as int, k as int).0,
                        acc.den == dot_acc(*self, *rhs, i as int, j as int, k as int).1,
                        forall|t: int|
                            0 <= t < k ==> #[trigger] dot_step_fits(
                                *self,
                                *rhs,
                                i as int,
                                j as int,
                                t,
                            ),
                    decreases inner - k,
                {
                    let term = match a[i][k].mul(&b[k][j]) {
                        Some(v) => v,
                        None => {
                            proof {
                                assert(!dot_step_fits(*self, *rhs, i as int, j as int, k as int));
                            }
                            return Err(MatrixError::Overflow);
                        },
                    };
                    match acc.add(&term) {
                        Some(v) => {
                            proof {
                                assert(dot_step_fits(*self, *rhs, i as int, j as int, k as int));
                            }
                            acc = v;
                        },
                        None => {
                            proof {
                                assert(!dot_step_fits(*self, *rhs, i as int, j as int, k as int));
                            }
                            return Err(MatrixError::Overflow);
                        },
                    }
                    k += 1;
                }
                row.push(acc);
                j += 1;
            }
            g.push(row);
            i += 1;
        }
        Ok(Matrix::from_numbers(rows, cols, &g))
    }
}

} // verus!

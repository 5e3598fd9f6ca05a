use crate::decimal::{cell_den, cell_num};
use crate::errors::MatrixError;
use crate::matrix::ops::all_parseable;
use crate::matrix::types::Matrix;
use crate::rational::{abs_int, lemma_red_value, norm_fits, red_den, red_num, Rational};
use vstd::pervasive::VecAdditionalExecFns;
use vstd::prelude::*;

verus! {

/// A fraction brought to lowest terms, as every arithmetic step stores it.
pub open spec fn red_pair(n: int, d: int) -> (int, int) {
    (red_num(n, d), red_den(n, d))
}

/// The reduced product of two fractions.
pub open spec fn mul_pair(x: (int, int), y: (int, int)) -> (int, int) {
    red_pair(x.0 * y.0, x.1 * y.1)
}

/// The reduced difference of two fractions over the common denominator.
pub open spec fn sub_pair(x: (int, int), y: (int, int)) -> (int, int) {
    red_pair(x.0 * y.1 - y.0 * x.1, x.1 * y.1)
}

/// The reduced negation of a fraction.
pub open spec fn neg_pair(x: (int, int)) -> (int, int) {
    red_pair(-x.0, x.1)
}

/// The raw numerator of a quotient, sign-adjusted so the denominator stays
/// positive.
pub open spec fn quot_raw_num(x: (int, int), y: (int, int)) -> int {
    if y.0 >= 0 {
        x.0 * y.1
    } else {
        -(x.0 * y.1)
    }
}

/// The raw (positive) denominator of a quotient.
pub open spec fn quot_raw_den(x: (int, int), y: (int, int)) -> int {
    if y.0 >= 0 {
        x.1 * y.0
    } else {
        -(x.1 * y.0)
    }
}

/// The reduced quotient of two fractions (`y` nonzero).
pub open spec fn div_pair(x: (int, int), y: (int, int)) -> (int, int) {
    red_pair(quot_raw_num(x, y), quot_raw_den(x, y))
}

/// Whether `|x| > |y|`, the partial-pivot comparison on fractions.
pub open spec fn abs_gt_pair(x: (int, int), y: (int, int)) -> bool {
    abs_int(x.0) * y.1 > abs_int(y.0) * x.1
}

/// A grid of working cells as exact fractions.
pub open spec fn grid_pairs(a: Seq<Vec<Rational>>) -> Seq<Seq<(int, int)>> {
    Seq::new(
        a.len(),
        |r: int| Seq::new(a[r]@.len(), |c: int| (a[r]@[c].num as int, a[r]@[c].den as int)),
    )
}

/// The matrix's cells parsed into exact fractions.
pub open spec fn parsed_pairs(m: Matrix) -> Seq<Seq<(int, int)>> {
    Seq::new(
        m.rows as nat,
        |r: int| Seq::new(m.cols as nat, |c: int| (cell_num(m.cell(r, c)), cell_den(m.cell(r, c)))),
    )
}

/// The row with the largest-magnitude entry of column `i` among rows
/// `i..r`; the earliest such row on ties, as a strict comparison scans.
pub open spec fn pivot_in(g: Seq<Seq<(int, int)>>, i: int, r: int) -> int
    decreases r - i,
{
    if r <= i + 1 {
        i
    } else {
        let p = pivot_in(g, i, r - 1);
        if abs_gt_pair(g[r - 1][i], g[p][i]) {
            r - 1
        } else {
            p
        }
    }
}

/// The grid with rows `i` and `p` exchanged.
pub open spec fn swap_rows(g: Seq<Seq<(int, int)>>, i: int, p: int) -> Seq<Seq<(int, int)>> {
    g.update(i, g[p]).update(p, g[i])
}

/// One eliminated cell: the old cell minus the row's factor times the pivot
/// row's cell.
pub open spec fn elim_cell(g: Seq<Seq<(int, int)>>, i: int, r: int, c: int) -> (int, int) {
    sub_pair(g[r][c], mul_pair(div_pair(g[r][i], g[i][i]), g[i][c]))
}

/// Row `r` after elimination against pivot row `i`: columns from `i` on are
/// reduced, earlier columns stay.
pub open spec fn elim_row(g: Seq<Seq<(int, int)>>, i: int, r: int) -> Seq<(int, int)> {
    Seq::new(
        g[r].len(),
        |c: int|
            if c < i {
                g[r][c]
            } else {
                elim_cell(g, i, r, c)
            },
    )
}

/// The grid with rows `i+1..upto` eliminated against pivot row `i`.
pub open spec fn elim_upto(g: Seq<Seq<(int, int)>>, i: int, upto: int) -> Seq<Seq<(int, int)>> {
    Seq::new(
        g.len(),
        |r: int|
            if i < r < upto {
                elim_row(g, i, r)
            } else {
                g[r]
            },
    )
}

/// Whether the three exact steps that eliminate cell `(r, c)` — the row's
/// factor, its product with the pivot row's cell, and the difference — all
/// fit the cell type once reduced.
pub open spec fn elim_cell_fits(g: Seq<Seq<(int, int)>>, i: int, r: int, c: int) -> bool {
    let f = div_pair(g[r][i], g[i][i]);
    let t = mul_pair(f, g[i][c]);
    &&& norm_fits(quot_raw_num(g[r][i], g[i][i]), quot_raw_den(g[r][i], g[i][i]))
    &&& norm_fits(f.0 * g[i][c].0, f.1 * g[i][c].1)
    &&& norm_fits(g[r][c].0 * t.1 - t.0 * g[r][c].1, g[r][c].1 * t.1)
}

/// Whether one whole elimination pass below pivot row `i` fits.
pub open spec fn elim_fits(g: Seq<Seq<(int, int)>>, i: int, n: int) -> bool {
    forall|r: int, c: int|
        i < r < n && i <= c < n ==> #[trigger] elim_cell_fits(g, i, r, c)
}

/// Gaussian elimination with partial pivoting on exact fractions: pick the
/// largest-magnitude pivot, return `0` at once on an exactly-zero pivot,
/// negate on a row swap, multiply the running product by the pivot,
/// eliminate below, and recurse on the next column. The value of a matrix
/// with no rows is the running product's start, `1`.
pub open spec fn det_elim(g: Seq<Seq<(int, int)>>, det: (int, int), i: int, n: int) -> (int, int)
    decreases n - i,
{
    if i >= n {
        det
    } else {
        let p = pivot_in(g, i, n);
        if g[p][i].0 == 0 {
            (0, 1)
        } else {
            let g1 = if p == i {
                g
            } else {
                swap_rows(g, i, p)
            };
            let det1 = if p == i {
                det
            } else {
                neg_pair(det)
            };
            det_elim(elim_upto(g1, i, n), mul_pair(det1, g1[i][i]), i + 1, n)
        }
    }
}

/// Whether every exact intermediate value of the elimination fits the cell
/// type, step by step, in the order the elimination produces them.
pub open spec fn det_elim_fits(g: Seq<Seq<(int, int)>>, det: (int, int), i: int, n: int) -> bool
    decreases n - i,
{
    if i >= n {
        true
    } else {
        let p = pivot_in(g, i, n);
        if g[p][i].0 == 0 {
            true
        } else {
            let g1 = if p == i {
                g
            } else {
                swap_rows(g, i, p)
            };
            let det1 = if p == i {
                det
            } else {
                neg_pair(det)
            };
            &&& (p != i ==> norm_fits(-det.0, det.1))
            &&& norm_fits(det1.0 * g1[i][i].0, det1.1 * g1[i][i].1)
            &&& elim_fits(g1, i, n)
            &&& det_elim_fits(elim_upto(g1, i, n), mul_pair(det1, g1[i][i]), i + 1, n)
        }
    }
}

/// The determinant of the matrix's parsed cells, as the elimination
/// computes it.
pub open spec fn det_spec(m: Matrix) -> (int, int) {
    det_elim(parsed_pairs(m), (1, 1), 0, m.rows as int)
}

/// Whether the elimination on the matrix's parsed cells fits the cell type
/// throughout.
pub open spec fn det_fits(m: Matrix) -> bool {
    det_elim_fits(parsed_pairs(m), (1, 1), 0, m.rows as int)
}

/// A well-shaped `n x n` grid of fractions with positive denominators.
pub open spec fn wf_grid(g: Seq<Seq<(int, int)>>, n: int) -> bool {
    &&& g.len() == n
    &&& forall|r: int| 0 <= r < n ==> (#[trigger] g[r]).len() == n
    &&& forall|r: int, c: int| 0 <= r < n && 0 <= c < n ==> (#[trigger] g[r][c]).1 >= 1
}

/// The pivot choice lies among the rows it was searched in.
proof fn lemma_pivot_in_range(g: Seq<Seq<(int, int)>>, i: int, r: int)
    requires
        i < r,
    ensures
        i <= pivot_in(g, i, r) < r,
    decreases r - i,
{
    if r > i + 1 {
        lemma_pivot_in_range(g, i, r - 1);
    }
}

/// Dividing an exactly-zero fraction gives exactly zero.
proof fn lemma_div_pair_zero(x: (int, int), y: (int, int))
    requires
        x.0 == 0,
        x.1 >= 1,
        y.1 >= 1,
        y.0 != 0,
    ensures
        div_pair(x, y) == (0int, 1int),
{
    assert(x.0 * y.1 == 0) by (nonlinear_arith)
        requires
            x.0 == 0,
    ;
    if y.0 >= 0 {
        assert(x.1 * y.0 >= 1) by (nonlinear_arith)
            requires
                x.1 >= 1,
                y.0 >= 1,
        ;
        lemma_red_value(0, x.1 * y.0);
    } else {
        assert(-(x.1 * y.0) >= 1) by (nonlinear_arith)
            requires
                x.1 >= 1,
                y.0 <= -1,
        ;
        lemma_red_value(0, -(x.1 * y.0));
    }
}

/// Multiplying by an exactly-zero fraction gives exactly zero.
proof fn lemma_mul_pair_zero_left(y: (int, int))
    requires
        y.1 >= 1,
    ensures
        mul_pair((0int, 1int), y) == (0int, 1int),
{
    assert(0int * y.0 == 0) by (nonlinear_arith);
    assert(1int * y.1 == y.1) by (nonlinear_arith);
    lemma_red_value(0, y.1);
}

/// Subtracting zero from an exactly-zero fraction gives exactly zero.
proof fn lemma_sub_pair_zero(x: (int, int))
    requires
        x.0 == 0,
        x.1 >= 1,
    ensures
        sub_pair(x, (0int, 1int)) == (0int, 1int),
{
    assert(x.0 * 1int == x.0 && 0int * x.1 == 0 && x.1 * 1int == x.1) by (nonlinear_arith);
    lemma_red_value(0, x.1);
}

/// One elimination pass keeps the grid well shaped.
proof fn lemma_elim_wf(g: Seq<Seq<(int, int)>>, i: int, n: int)
    requires
        wf_grid(g, n),
        0 <= i < n,
        g[i][i].0 != 0,
    ensures
        wf_grid(elim_upto(g, i, n), n),
{
    assert forall|r: int, c: int| 0 <= r < n && 0 <= c < n implies (#[trigger] elim_upto(
        g,
        i,
        n,
    )[r][c]).1 >= 1 by {
        if i < r && i <= c {
            let qn = quot_raw_num(g[r][i], g[i][i]);
            let qd = quot_raw_den(g[r][i], g[i][i]);
            assert(qd >= 1) by {
                if g[i][i].0 >= 0 {
                    assert(g[r][i].1 * g[i][i].0 >= 1) by (nonlinear_arith)
                        requires
                            g[r][i].1 >= 1,
                            g[i][i].0 >= 1,
                    ;
                } else {
                    assert(-(g[r][i].1 * g[i][i].0) >= 1) by (nonlinear_arith)
                        requires
                            g[r][i].1 >= 1,
                            g[i][i].0 <= -1,
                    ;
                }
            }
            lemma_red_value(qn, qd);
            let f = div_pair(g[r][i], g[i][i]);
            assert(f.1 * g[i][c].1 >= 1) by (nonlinear_arith)
                requires
                    f.1 >= 1,
                    g[i][c].1 >= 1,
            ;
            lemma_red_value(f.0 * g[i][c].0, f.1 * g[i][c].1);
            let t = mul_pair(f, g[i][c]);
            assert(g[r][c].1 * t.1 >= 1) by (nonlinear_arith)
                requires
                    g[r][c].1 >= 1,
                    t.1 >= 1,
            ;
            lemma_red_value(g[r][c].0 * t.1 - t.0 * g[r][c].1, g[r][c].1 * t.1);
        }
    }
}

/// One elimination pass maps an all-zero tail row to an all-zero tail row.
proof fn lemma_elim_zero_row(g: Seq<Seq<(int, int)>>, i: int, n: int, z: int)
    requires
        wf_grid(g, n),
        0 <= i < n,
        i < z < n,
        g[i][i].0 != 0,
        forall|c: int| i <= c < n ==> g[z][c].0 == 0,
    ensures
        forall|c: int| i <= c < n ==> elim_upto(g, i, n)[z][c].0 == 0,
{
    assert forall|c: int| i <= c < n implies elim_upto(g, i, n)[z][c].0 == 0 by {
        lemma_div_pair_zero(g[z][i], g[i][i]);
        lemma_mul_pair_zero_left(g[i][c]);
        lemma_sub_pair_zero(g[z][c]);
    }
}

/// A grid with an all-zero row is singular: the elimination hits an
/// exactly-zero pivot and short-circuits to exactly zero. The zero row is
/// preserved by every pass — its factors are zero — and is never chosen as
/// a pivot while a nonzero pivot exists, so it is eventually the only
/// candidate left.
pub proof fn lemma_det_elim_zero_row(
    g: Seq<Seq<(int, int)>>,
    det: (int, int),
    i: int,
    n: int,
    z: int,
)
    requires
        wf_grid(g, n),
        0 <= i <= z < n,
        forall|c: int| i <= c < n ==> g[z][c].0 == 0,
    ensures
        det_elim(g, det, i, n) == (0int, 1int),
    decreases n - i,
{
    let p = pivot_in(g, i, n);
    lemma_pivot_in_range(g, i, n);
    if g[p][i].0 != 0 {
        assert(p != z);
        let g1 = if p == i {
            g
        } else {
            swap_rows(g, i, p)
        };
        let z1 = if p == i {
            z
        } else if z == i {
            p
        } else {
            z
        };
        assert(i < z1 < n);
        assert(g1[z1] == g[z]);
        assert(wf_grid(g1, n)) by {
            if p != i {
                assert forall|r: int| 0 <= r < n implies (#[trigger] g1[r]).len() == n by {
                    if r != i && r != p {
                        assert(g1[r] == g[r]);
                    }
                }
                assert forall|r: int, c: int| 0 <= r < n && 0 <= c < n implies (
                #[trigger] g1[r][c]).1 >= 1 by {
                    if r != i && r != p {
                        assert(g1[r] == g[r]);
                    }
                }
            }
        }
        assert(g1[i][i].0 != 0);
        lemma_elim_wf(g1, i, n);
        lemma_elim_zero_row(g1, i, n, z1);
        let det1 = if p == i {
            det
        } else {
            neg_pair(det)
        };
        lemma_det_elim_zero_row(elim_upto(g1, i, n), mul_pair(det1, g1[i][i]), i + 1, n, z1);
    }
}

/// A matrix with an all-zero parsed row has determinant exactly zero.
pub proof fn lemma_det_spec_zero_row(m: Matrix, z: int)
    requires
        m.rows == m.cols,
        0 <= z < m.rows,
        forall|c: int| 0 <= c < m.cols ==> cell_num(m.cell(z, c)) == 0,
    ensures
        det_spec(m) == (0int, 1int),
{
    let g = parsed_pairs(m);
    let n = m.rows as int;
    assert forall|r: int, c: int| 0 <= r < n && 0 <= c < n implies (#[trigger] g[r][c]).1
        >= 1 by {
        crate::decimal::lemma_pow10_pos(
            crate::decimal::den_exp(crate::decimal::number_body(m.cell(r, c))) as nat,
        );
    }
    lemma_det_elim_zero_row(g, (1, 1), 0, n, z);
}

impl Matrix {
    /// The determinant, by Gaussian elimination with partial pivoting on a
    /// numeric copy of the matrix (the matrix itself is left untouched).
    ///
    /// For each pivot column the row with the largest-magnitude entry is
    /// chosen; an exactly-zero pivot means the matrix is singular and the
    /// result is `0` at once; a row swap flips the running sign; each pivot
    /// multiplies the running product; rows below are reduced by an exact
    /// rational factor. The zero test is exact equality — the arithmetic is
    /// exact, so no tolerance is involved. A matrix with no rows has
    /// determinant `1`, the empty product. The result is exactly
    /// `det_spec`, the statement of that elimination over the parsed cells.
    ///
    /// Fails with `NotSquare` exactly when `rows != cols`, with
    /// `InvalidNumber` exactly when it is square and some cell does not
    /// parse, and with `Overflow` exactly when some exact intermediate
    /// value of the elimination leaves the cell type's range.
    #[verifier::loop_isolation(false)]
    #[verifier::rlimit(60)]
    pub fn determinant(&self) -> (r: Result<Rational, MatrixError>)
        requires
            self.wf(),
        ensures
            match r {
                Ok(v) => {
                    &&& self.rows == self.cols
                    &&& all_parseable(*self)
                    &&& det_fits(*self)
                    &&& v.wf()
                    &&& v.num == det_spec(*self).0
                    &&& v.den == det_spec(*self).1
                },
                Err(e) => {
                    &&& (e == MatrixError::NotSquare <==> self.rows != self.cols)
                    &&& (e == MatrixError::InvalidNumber <==> self.rows == self.cols
                        && !all_parseable(*self))
                    &&& (e == MatrixError::Overflow <==> self.rows == self.cols && all_parseable(
                        *self,
                    ) && !det_fits(*self))
                    &&& (e == MatrixError::NotSquare || e == MatrixError::InvalidNumber || e
                        == MatrixError::Overflow)
                },
            },
    {
        if self.rows != self.cols {
            return Err(MatrixError::NotSquare);
        }
        let n = self.rows;
        let ghost nn = n as int;
        let ghost g0 = parsed_pairs(*self);
        let mut a = match self.to_numbers() {
            Ok(g) => g,
            Err(e) => {
                return Err(e);
            },
        };
        proof {
            assert(grid_pairs(a@) =~~= g0);
        }
        let mut det = Rational::one();
        let mut i: usize = 0;
        while i < n
            invariant
                a@.len() == n,
                forall|x: int| 0 <= x < n ==> (#[trigger] a@[x])@.len() == n,
                forall|x: int, y: int| 0 <= x < n && 0 <= y < n ==> (#[trigger] a@[x]@[y]).wf(),
                i <= n,
                det.wf(),
                det_elim(g0, (1, 1), 0, nn) == det_elim(
                    grid_pairs(a@),
                    (det.num as int, det.den as int),
                    i as int,
                    nn,
                ),
                det_elim_fits(g0, (1, 1), 0, nn) == det_elim_fits(
                    grid_pairs(a@),
                    (det.num as int, det.den as int),
                    i as int,
                    nn,
                ),
            decreases n - i,
        {
            let ghost gh = grid_pairs(a@);
            let ghost dh = (det.num as int, det.den as int);
            // Pivot search: the largest magnitude in column i, rows i..n.
            let mut pivot = i;
            let mut r2 = i + 1;
            while r2 < n
                invariant
                    i <= pivot < n,
                    i < r2 <= n,
                    pivot == pivot_in(gh, i as int, r2 as int),
                decreases n - r2,
            {
                proof {
                    assert(gh[r2 as int][i as int] == (a@[r2 as int]@[i as int].num as int, a@[r2
                        as int]@[i as int].den as int));
                    assert(gh[pivot as int][i as int] == (a@[pivot as int]@[i as int].num as int,
                    a@[pivot as int]@[i as int].den as int));
                }
                if a[r2][i].abs_gt(&a[pivot][i]) {
                    pivot = r2;
                }
                r2 += 1;
            }
            let ghost p = pivot as int;
            assert(p == pivot_in(gh, i as int, nn));
            // An exactly-zero pivot: the matrix is singular.
            if a[pivot][i].is_zero() {
                proof {
                    assert(gh[p][i as int].0 == 0);
                    assert(det_elim(gh, dh, i as int, nn) == (0int, 1int));
                    assert(det_elim_fits(gh, dh, i as int, nn));
                }
                return Ok(Rational::zero());
            }
            assert(gh[p][i as int].0 != 0);
            let ghost g1 = if p == i as int {
                gh
            } else {
                swap_rows(gh, i as int, p)
            };
            if pivot != i {
                // A row swap negates the determinant.
                let ghost before = a@;
                let mut spare: Vec<Rational> = Vec::new();
                a.set_and_swap(i, &mut spare);
                a.set_and_swap(pivot, &mut spare);
                a.set_and_swap(i, &mut spare);
                proof {
                    assert(a@ =~= before.update(i as int, before[p]).update(p, before[i as int]));
                    assert forall|x: int| 0 <= x < n implies (#[trigger] a@[x])@.len() == n by {
                        if x != i && x != p {
                            assert(a@[x] == before[x]);
                        }
                    }
                    assert forall|x: int, y: int| 0 <= x < n && 0 <= y < n implies (
                    #[trigger] a@[x]@[y]).wf() by {
                        if x != i && x != p {
                            assert(a@[x] == before[x]);
                        }
                    }
                    assert(grid_pairs(a@) =~~= g1);
                }
                det = match det.neg() {
                    Some(v) => v,
                    None => {
                        proof {
                            assert(!det_elim_fits(gh, dh, i as int, nn));
                            assert(!det_fits(*self));
                        }
                        return Err(MatrixError::Overflow);
                    },
                };
            }
            let ghost det1 = if p == i as int {
                dh
            } else {
                neg_pair(dh)
            };
            assert((det.num as int, det.den as int) == det1);
            assert(grid_pairs(a@) == g1);
            assert(a@[i as int]@[i as int].num == g1[i as int][i as int].0);
            assert(a@[i as int]@[i as int].den == g1[i as int][i as int].1);
            // The pivot joins the running product of pivots.
            det = match det.mul(&a[i][i]) {
                Some(v) => v,
                None => {
                    proof {
                        assert(!det_elim_fits(gh, dh, i as int, nn));
                        assert(!det_fits(*self));
                    }
                    return Err(MatrixError::Overflow);
                },
            };
            assert((det.num as int, det.den as int) == mul_pair(det1, g1[i as int][i as int]));
            proof {
                assert(g1.len() == nn);
                assert forall|rr: int| 0 <= rr < nn implies #[trigger] g1[rr].len() == nn by {
                    if p != i as int && rr != i as int && rr != p {
                        assert(g1[rr] == gh[rr]);
                    }
                }
            }
            // Eliminate the entries below the pivot.
            let mut r2 = i + 1;
            proof {
                assert(grid_pairs(a@) =~~= elim_upto(g1, i as int, i as int + 1));
            }
            while r2 < n
                invariant
                    a@.len() == n,
                    forall|x: int| 0 <= x < n ==> (#[trigger] a@[x])@.len() == n,
                    forall|x: int, y: int|
                        0 <= x < n && 0 <= y < n ==> (#[trigger] a@[x]@[y]).wf(),
                    i < r2 <= n,
                    grid_pairs(a@) == elim_upto(g1, i as int, r2 as int),
                    forall|rr: int, cc: int|
                        i < rr < r2 && i <= cc < nn ==> #[trigger] elim_cell_fits(
                            g1,
                            i as int,
                            rr,
                            cc,
                        ),
                decreases n - r2,
            {
                proof {
                    assert(elim_upto(g1, i as int, r2 as int)[r2 as int] == g1[r2 as int]);
                    assert(elim_upto(g1, i as int, r2 as int)[i as int] == g1[i as int]);
                    assert(a@[r2 as int]@[i as int].num == g1[r2 as int][i as int].0);
                    assert(a@[r2 as int]@[i as int].den == g1[r2 as int][i as int].1);
                    assert(a@[i as int]@[i as int].num == g1[i as int][i as int].0);
                    assert(a@[i as int]@[i as int].den == g1[i as int][i as int].1);
                }
                let factor = match a[r2][i].div(&a[i][i]) {
                    Some(v) => v,
                    None => {
                        proof {
                            assert(!elim_cell_fits(g1, i as int, r2 as int, i as int));
                            assert(!elim_fits(g1, i as int, nn));
                            assert(!det_elim_fits(gh, dh, i as int, nn));
                            assert(!det_fits(*self));
                        }
                        return Err(MatrixError::Overflow);
                    },
                };
                assert((factor.num as int, factor.den as int) == div_pair(
                    g1[r2 as int][i as int],
                    g1[i as int][i as int],
                ));
                let mut c = i;
                while c < n
                    invariant
                        a@.len() == n,
                        forall|x: int| 0 <= x < n ==> (#[trigger] a@[x])@.len() == n,
                        forall|x: int, y: int|
                            0 <= x < n && 0 <= y < n ==> (#[trigger] a@[x]@[y]).wf(),
                        i < r2 < n,
                        i <= c <= n,
                        factor.wf(),
                        (factor.num as int, factor.den as int) == div_pair(
                            g1[r2 as int][i as int],
                            g1[i as int][i as int],
                        ),
                        forall|rr: int|
                            0 <= rr < nn && rr != r2 ==> #[trigger] grid_pairs(a@)[rr]
                                == elim_upto(g1, i as int, r2 as int)[rr],
                        forall|cc: int|
                            0 <= cc < nn && !(i <= cc < c) ==> #[trigger] grid_pairs(
                                a@,
                            )[r2 as int][cc] == g1[r2 as int][cc],
                        forall|cc: int|
                            i <= cc < c ==> #[trigger] grid_pairs(a@)[r2 as int][cc] == elim_cell(
                                g1,
                                i as int,
                                r2 as int,
                                cc,
                            ),
                        forall|cc: int|
                            i <= cc < c ==> #[trigger] elim_cell_fits(g1, i as int, r2 as int, cc),
                    decreases n - c,
                {
                    proof {
                        assert(grid_pairs(a@)[i as int] == elim_upto(g1, i as int, r2 as int)[i
                            as int]);
                        assert(grid_pairs(a@)[i as int] == g1[i as int]);
                        assert(a@[i as int]@[c as int].num == g1[i as int][c as int].0);
                        assert(a@[i as int]@[c as int].den == g1[i as int][c as int].1);
                        assert(grid_pairs(a@)[r2 as int][c as int] == g1[r2 as int][c as int]);
                        assert(a@[r2 as int]@[c as int].num == g1[r2 as int][c as int].0);
                        assert(a@[r2 as int]@[c as int].den == g1[r2 as int][c as int].1);
                    }
                    let t = match factor.mul(&a[i][c]) {
                        Some(v) => v,
                        None => {
                            proof {
                                assert(!elim_cell_fits(g1, i as int, r2 as int, c as int));
                                assert(!elim_fits(g1, i as int, nn));
                                assert(!det_elim_fits(gh, dh, i as int, nn));
                                assert(!det_fits(*self));
                            }
                            return Err(MatrixError::Overflow);
                        },
                    };
                    let newv = match a[r2][c].sub(&t) {
                        Some(v) => v,
                        None => {
                            proof {
                                assert(!elim_cell_fits(g1, i as int, r2 as int, c as int));
                                assert(!elim_fits(g1, i as int, nn));
                                assert(!det_elim_fits(gh, dh, i as int, nn));
                                assert(!det_fits(*self));
                            }
                            return Err(MatrixError::Overflow);
                        },
                    };
                    proof {
                        assert((newv.num as int, newv.den as int) == elim_cell(
                            g1,
                            i as int,
                            r2 as int,
                            c as int,
                        ));
                        assert(elim_cell_fits(g1, i as int, r2 as int, c as int));
                    }
                    let ghost pre = a@;
                    proof {
                        assert forall|cc: int| 0 <= cc < nn && !(i <= cc < c) implies #[trigger]
                        grid_pairs(pre)[r2 as int][cc] == g1[r2 as int][cc] by {
                            assert(grid_pairs(a@)[r2 as int][cc] == g1[r2 as int][cc]);
                        }
                        assert forall|cc: int| i <= cc < c implies #[trigger] grid_pairs(
                            pre,
                        )[r2 as int][cc] == elim_cell(g1, i as int, r2 as int, cc) by {
                            assert(grid_pairs(a@)[r2 as int][cc] == elim_cell(
                                g1,
                                i as int,
                                r2 as int,
                                cc,
                            ));
                        }
                    }
                    a[r2].set(c, newv);
                    proof {
                        assert forall|rr: int| 0 <= rr < nn && rr != r2 implies #[trigger]
                        grid_pairs(a@)[rr] == elim_upto(g1, i as int, r2 as int)[rr] by {
                            assert(a@[rr] == pre[rr]);
                            assert(grid_pairs(a@)[rr] =~= grid_pairs(pre)[rr]);
                        }
                        assert forall|cc: int| 0 <= cc < nn && !(i <= cc < c + 1) implies
                        #[trigger] grid_pairs(a@)[r2 as int][cc] == g1[r2 as int][cc] by {
                            assert(a@[r2 as int]@[cc] == pre[r2 as int]@[cc]);
                            assert(grid_pairs(a@)[r2 as int][cc] == grid_pairs(pre)[r2 as int][cc]);
                        }
                        assert forall|cc: int| i <= cc < c + 1 implies #[trigger] grid_pairs(
                            a@,
                        )[r2 as int][cc] == elim_cell(g1, i as int, r2 as int, cc) by {
                            if cc < c {
                                assert(a@[r2 as int]@[cc] == pre[r2 as int]@[cc]);
                                assert(grid_pairs(a@)[r2 as int][cc] == grid_pairs(
                                    pre,
                                )[r2 as int][cc]);
                            } else {
                                assert(grid_pairs(a@)[r2 as int][c as int] == (newv.num as int,
                                newv.den as int));
                            }
                        }
                    }
                    c += 1;
                }
                proof {
                    assert forall|rr: int| 0 <= rr < nn implies grid_pairs(a@)[rr] =~= elim_upto(
                        g1,
                        i as int,
                        r2 as int + 1,
                    )[rr] by {
                        if rr == r2 as int {
                            assert(elim_upto(g1, i as int, r2 as int + 1)[rr] == elim_row(
                                g1,
                                i as int,
                                r2 as int,
                            ));
                            assert forall|cc: int| 0 <= cc < nn implies grid_pairs(
                                a@,
                            )[r2 as int][cc] == elim_row(g1, i as int, r2 as int)[cc] by {}
                        } else {
                            assert(grid_pairs(a@)[rr] == elim_upto(g1, i as int, r2 as int)[rr]);
                            assert(elim_upto(g1, i as int, r2 as int)[rr] == elim_upto(
                                g1,
                                i as int,
                                r2 as int + 1,
                            )[rr]);
                        }
                    }
                    assert(grid_pairs(a@) =~~= elim_upto(g1, i as int, r2 as int + 1));
                }
                r2 += 1;
            }
            proof {
                assert(grid_pairs(a@) == elim_upto(g1, i as int, nn));
                assert(elim_fits(g1, i as int, nn));
                assert(det_elim(gh, dh, i as int, nn) == det_elim(
                    grid_pairs(a@),
                    (det.num as int, det.den as int),
                    i as int + 1,
                    nn,
                ));
                assert(det_elim_fits(gh, dh, i as int, nn) == det_elim_fits(
                    grid_pairs(a@),
                    (det.num as int, det.den as int),
                    i as int + 1,
                    nn,
                ));
            }
            i += 1;
        }
        proof {
            assert(det_elim(g0, (1, 1), 0, nn) == (det.num as int, det.den as int));
            assert(det_elim_fits(g0, (1, 1), 0, nn));
        }
        Ok(det)
    }
}

} // verus!

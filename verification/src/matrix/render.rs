use crate::decimal::{cell_den, cell_num, format_pair, format_rational, parse_cell, parseable};
use crate::matrix::types::Matrix;
use crate::rational::{red_den, red_num};
use vstd::prelude::*;
use vstd::string::*;

verus! {

/// `k` space characters.
pub open spec fn spaces(k: nat) -> Seq<char>
    decreases k,
{
    if k == 0 {
        Seq::empty()
    } else {
        spaces((k - 1) as nat).push(' ')
    }
}

/// The display form of one cell: a numeric cell is shown as its value in
/// lowest terms — which trims trailing zeros and a trailing decimal point,
/// so `3.000` is shown as `3` and `3.500` as `3.5` — and a cell that does
/// not parse is shown verbatim.
pub open spec fn display_cell(s: Seq<char>) -> Seq<char> {
    if parseable(s) {
        format_pair(red_num(cell_num(s), cell_den(s)), red_den(cell_num(s), cell_den(s)))
    } else {
        s
    }
}

/// The widest display string among the first `i` rows of column `j`.
pub open spec fn col_width(m: Matrix, i: int, j: int) -> int
    decreases i,
{
    if i <= 0 {
        0
    } else {
        let w = col_width(m, i - 1, j);
        let l = display_cell(m.cell(i - 1, j)).len() as int;
        if l > w {
            l
        } else {
            w
        }
    }
}

/// A display string right-justified to width `w`, followed by one space.
pub open spec fn pad_cell(s: Seq<char>, w: int) -> Seq<char> {
    spaces((w - s.len()) as nat) + s + seq![' ']
}

/// The opening bracket glyph of row `i`, with its trailing space: a top
/// corner for the first row, a bottom corner for the last, a plain side for
/// the rows between (a single-row matrix uses the top pair).
pub open spec fn left_glyph(i: int, rows: int) -> Seq<char> {
    if i == 0 {
        seq!['⎡', ' ']
    } else if i == rows - 1 {
        seq!['⎣', ' ']
    } else {
        seq!['⎢', ' ']
    }
}

/// The closing bracket glyph of row `i`, with its line break.
pub open spec fn right_glyph(i: int, rows: int) -> Seq<char> {
    if i == 0 {
        seq!['⎤', '\n']
    } else if i == rows - 1 {
        seq!['⎦', '\n']
    } else {
        seq!['⎥', '\n']
    }
}

/// The first `j` cells of row `i` in display form, each right-justified to
/// its column's width.
pub open spec fn row_cells(m: Matrix, i: int, j: int) -> Seq<char>
    decreases j,
{
    if j <= 0 {
        Seq::empty()
    } else {
        row_cells(m, i, j - 1) + pad_cell(
            display_cell(m.cell(i, j - 1)),
            col_width(m, m.rows as int, j - 1),
        )
    }
}

/// One full bracketed line of the rendering.
pub open spec fn row_line(m: Matrix, i: int) -> Seq<char> {
    left_glyph(i, m.rows as int) + row_cells(m, i, m.cols as int) + right_glyph(i, m.rows as int)
}

/// The first `i` lines of the rendering.
pub open spec fn render_rows(m: Matrix, i: int) -> Seq<char>
    decreases i,
{
    if i <= 0 {
        Seq::empty()
    } else {
        render_rows(m, i - 1) + row_line(m, i - 1)
    }
}

/// The whole rendering: a leading line break, then either the empty-matrix
/// marker or one bracketed line per row, each column right-justified to its
/// own width over the cells' display strings.
pub open spec fn render_spec(m: Matrix) -> Seq<char> {
    if m.rows == 0 || m.cols == 0 {
        seq!['\n', '[', ']', '\n']
    } else {
        seq!['\n'] + render_rows(m, m.rows as int)
    }
}

/// Every display string of a column fits within the column's width.
proof fn lemma_col_width_ge(m: Matrix, bound: int, i: int, j: int)
    requires
        0 <= i < bound,
    ensures
        col_width(m, bound, j) >= display_cell(m.cell(i, j)).len(),
        col_width(m, bound, j) >= 0,
    decreases bound,
{
    if i < bound - 1 {
        lemma_col_width_ge(m, bound - 1, i, j);
    }
}

/// The display form of one cell, as `display_cell` states it.
fn display_string(s: &String) -> (out: String)
    ensures
        out@ == display_cell(s@),
{
    match parse_cell(s.as_str()) {
        Some(q) => format_rational(&q.reduced()),
        None => s.clone(),
    }
}

impl Matrix {
    /// Renders the matrix as multi-line text, exactly as `render_spec`
    /// states: a pure formatting function with no effect on the stored
    /// value. Numeric cells are shown trimmed of trailing zeros and of a
    /// trailing decimal point; cells that do not parse are shown verbatim.
    #[verifier::loop_isolation(false)]
    #[verifier::rlimit(60)]
    pub fn render(&self) -> (out: String)
        requires
            self.wf(),
        ensures
            out@ == render_spec(*self),
    {
        let mut out = String::new();
        proof {
            reveal_strlit("\n");
            reveal_strlit("[]\n");
            reveal_strlit(" ");
            reveal_strlit("⎡ ");
            reveal_strlit("⎣ ");
            reveal_strlit("⎢ ");
            reveal_strlit("⎤\n");
            reveal_strlit("⎦\n");
            reveal_strlit("⎥\n");
        }
        out.append("\n");
        if self.rows == 0 || self.cols == 0 {
            out.append("[]\n");
            proof {
                assert(out@ =~= render_spec(*self));
            }
            return out;
        }
        // The display form of every cell, computed once.
        let mut disp: Vec<Vec<String>> = Vec::new();
        let mut i: usize = 0;
        while i < self.rows
            invariant
                disp@.len() == i,
                i <= self.rows,
                forall|x: int| 0 <= x < i ==> (#[trigger] disp@[x])@.len() == self.cols,
                forall|x: int, y: int|
                    0 <= x < i && 0 <= y < self.cols ==> (#[trigger] disp@[x]@[y])@
                        == display_cell(self.cell(x, y)),
            decreases self.rows - i,
        {
            let mut row: Vec<String> = Vec::new();
            let mut j: usize = 0;
            while j < self.cols
                invariant
                    i < self.rows,
                    j <= self.cols,
                    row@.len() == j,
                    forall|y: int|
                        0 <= y < j ==> (#[trigger] row@[y])@ == display_cell(
                            self.cell(i as int, y),
                        ),
                decreases self.cols - j,
            {
                let d = display_string(&self.data[i][j]);
                proof {
                    assert(self.cell(i as int, j as int) == self.data@[i as int]@[j as int]@);
                }
                row.push(d);
                j += 1;
            }
            disp.push(row);
            i += 1;
        }
        // The widest display string of each column decides its field width.
        let mut widths: Vec<usize> = Vec::new();
        let mut j: usize = 0;
        while j < self.cols
            invariant
                disp@.len() == self.rows,
                forall|x: int| 0 <= x < self.rows ==> (#[trigger] disp@[x])@.len() == self.cols,
                forall|x: int, y: int|
                    0 <= x < self.rows && 0 <= y < self.cols ==> (#[trigger] disp@[x]@[y])@
                        == display_cell(self.cell(x, y)),
                widths@.len() == j,
                j <= self.cols,
                forall|y: int| 0 <= y < j ==> widths@[y] == col_width(*self, self.rows as int, y),
            decreases self.cols - j,
        {
            let mut w: usize = 0;
            let mut i2: usize = 0;
            while i2 < self.rows
                invariant
                    i2 <= self.rows,
                    j < self.cols,
                    w == col_width(*self, i2 as int, j as int),
                decreases self.rows - i2,
            {
                let l = disp[i2][j].as_str().unicode_len();
                if l > w {
                    w = l;
                }
                i2 += 1;
            }
            widths.push(w);
            j += 1;
        }
        // One bracketed line per row.
        let mut i: usize = 0;
        while i < self.rows
            invariant
                disp@.len() == self.rows,
                forall|x: int| 0 <= x < self.rows ==> (#[trigger] disp@[x])@.len() == self.cols,
                forall|x: int, y: int|
                    0 <= x < self.rows && 0 <= y < self.cols ==> (#[trigger] disp@[x]@[y])@
                        == display_cell(self.cell(x, y)),
                widths@.len() == self.cols,
                forall|y: int|
                    0 <= y < self.cols ==> widths@[y] == col_width(*self, self.rows as int, y),
                i <= self.rows,
                out@ == seq!['\n'] + render_rows(*self, i as int),
            decreases self.rows - i,
        {
            let ghost line_start = out@;
            if i == 0 {
                out.append("⎡ ");
            } else if i == self.rows - 1 {
                out.append("⎣ ");
            } else {
                out.append("⎢ ");
            }
            proof {
                assert(out@ =~= line_start + left_glyph(i as int, self.rows as int));
            }
            let mut j: usize = 0;
            while j < self.cols
                invariant
                    i < self.rows,
                    j <= self.cols,
                    out@ == line_start + left_glyph(i as int, self.rows as int) + row_cells(
                        *self,
                        i as int,
                        j as int,
                    ),
                decreases self.cols - j,
            {
                let ghost cell_start = out@;
                let w = widths[j];
                let cell = disp[i][j].as_str();
                let l = cell.unicode_len();
                proof {
                    lemma_col_width_ge(*self, self.rows as int, i as int, j as int);
                }
                let mut z: usize = 0;
                while z < w - l
                    invariant
                        z <= w - l,
                        l <= w,
                        out@ == cell_start + spaces(z as nat),
                    decreases w - l - z,
                {
                    proof {
                        reveal_strlit(" ");
                    }
                    out.append(" ");
                    proof {
                        assert(out@ =~= cell_start + spaces((z + 1) as nat));
                    }
                    z += 1;
                }
                out.append(cell);
                proof {
                    reveal_strlit(" ");
                }
                out.append(" ");
                proof {
                    assert(out@ =~= cell_start + pad_cell(
                        display_cell(self.cell(i as int, j as int)),
                        col_width(*self, self.rows as int, j as int),
                    ));
                    assert(out@ =~= line_start + left_glyph(i as int, self.rows as int)
                        + row_cells(*self, i as int, j as int + 1));
                }
                j += 1;
            }
            if i == 0 {
                out.append("⎤\n");
            } else if i == self.rows - 1 {
                out.append("⎦\n");
            } else {
                out.append("⎥\n");
            }
            proof {
                assert(out@ =~= line_start + row_line(*self, i as int));
                assert(out@ =~= seq!['\n'] + render_rows(*self, i as int + 1));
            }
            i += 1;
        }
        proof {
            assert(out@ =~= render_spec(*self));
        }
        out
    }
}

} // verus!

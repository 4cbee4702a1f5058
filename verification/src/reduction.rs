//! What the reduction to echelon form does, step by step, and what it records.

use crate::error::Error;
use crate::grid::{
    height, identity_grid, is_empty_grid, joined, left_part, matrix_eq, matrix_latex, right_part,
    width,
};
use crate::text::{join_with, nat_text};
use crate::traits::MatrixNumber;
use vstd::prelude::*;

verus! {

/// How well a row that starts with `x` serves as a pivot row; smaller is better.
/// A one needs no work, a minus one needs a change of sign, a zero cannot be used.
/// `None` when the negation that tells a minus one apart overflows.
pub open spec fn rank<T: MatrixNumber>(x: T) -> Option<i64> {
    if x == T::zero_spec() {
        Some(1000)
    } else if x == T::one_spec() {
        Some(0)
    } else {
        match T::zero_spec().sub_spec(x) {
            None => None,
            Some(n) => if n == T::one_spec() {
                Some(1)
            } else {
                Some(2)
            },
        }
    }
}

/// The pivot row for column `c`, chosen among row `j` and the rows from `k` on:
/// the first row of the best rank. `None` when a rank cannot be computed.
pub open spec fn select_from<T: MatrixNumber>(g: Seq<Seq<T>>, c: int, k: int, j: int) -> Option<int>
    decreases g.len() - k,
{
    if k >= g.len() {
        Some(j)
    } else {
        match (rank(g[k][c]), rank(g[j][c])) {
            (Some(a), Some(b)) => select_from(
                g,
                c,
                k + 1,
                if a < b {
                    k
                } else {
                    j
                },
            ),
            _ => None,
        }
    }
}

/// The pivot row for column `c` among the rows from `i` on.
pub open spec fn pivot_row<T: MatrixNumber>(g: Seq<Seq<T>>, c: int, i: int) -> Option<int> {
    select_from(g, c, i + 1, i)
}

/// Rows `i` and `j` exchanged.
pub open spec fn swapped<T>(g: Seq<Seq<T>>, i: int, j: int) -> Seq<Seq<T>> {
    g.update(i, g[j]).update(j, g[i])
}

/// The row with its entries from `k` on divided by `d`.
pub open spec fn scale_from<T: MatrixNumber>(row: Seq<T>, d: T, k: int) -> Option<Seq<T>>
    decreases row.len() - k,
{
    if k >= row.len() || k < 0 {
        Some(row)
    } else {
        match row[k].div_spec(d) {
            None => None,
            Some(v) => scale_from(row.update(k, v), d, k + 1),
        }
    }
}

/// `x` minus `p` times the entry of the pivot row.
pub open spec fn reduced_entry<T: MatrixNumber>(x: T, pivot_entry: T, p: T) -> Option<T> {
    match pivot_entry.mul_spec(p) {
        None => None,
        Some(m) => x.sub_spec(m),
    }
}

/// The row with `p` times the pivot row subtracted from its entries from `k` on.
pub open spec fn reduce_from<T: MatrixNumber>(row: Seq<T>, pivot: Seq<T>, p: T, k: int) -> Option<
    Seq<T>,
>
    decreases row.len() - k,
{
    if k >= row.len() || k < 0 {
        Some(row)
    } else {
        match reduced_entry(row[k], pivot[k], p) {
            None => None,
            Some(v) => reduce_from(row.update(k, v), pivot, p, k + 1),
        }
    }
}

/// The name of row `i` in a step: `w` with the row's number, counted from one.
pub open spec fn row_name(i: int) -> Seq<char> {
    "w_{"@ + nat_text((i + 1) as nat) + "}"@
}

/// The label of an exchange of two rows.
pub open spec fn swap_label(i: int, j: int) -> Seq<char> {
    row_name(i) + " \\leftrightarrow "@ + row_name(j)
}

/// The label of a division of row `i` by `d`.
pub open spec fn scale_label<T: MatrixNumber>(i: int, d: T) -> Seq<char> {
    row_name(i) + " : "@ + d.latex_single_spec()
}

/// How the subtraction of `p` times a row is written: a bare sign for one and
/// minus one, else the sign and the magnitude. `None` when `p` cannot be negated,
/// or has no sign.
pub open spec fn coefficient_text<T: MatrixNumber>(p: T) -> Option<Seq<char>> {
    if p == T::one_spec() {
        Some("- "@)
    } else {
        match T::zero_spec().sub_spec(p) {
            None => None,
            Some(n) => if n == T::one_spec() {
                Some("+ "@)
            } else if p.is_positive_spec() {
                Some("- "@ + p.latex_spec())
            } else if p.is_negative_spec() {
                Some("+ "@ + n.latex_spec())
            } else {
                None
            },
        }
    }
}

/// The label of one subtraction: row `r` minus a multiple of row `i`.
pub open spec fn combination_label(r: int, coefficient: Seq<char>, i: int) -> Seq<char> {
    row_name(r) + " "@ + coefficient + row_name(i)
}

/// The label of all subtractions made with one pivot.
pub open spec fn stacked_label(ops: Seq<Seq<char>>) -> Seq<char> {
    "\\substack{"@ + join_with(ops, "\\\\"@) + "}"@
}

/// A recorded step: an arrow with the label, then the matrix it led to.
pub open spec fn step_text<T: MatrixNumber>(
    label: Seq<char>,
    g: Seq<Seq<T>>,
    separator: Option<usize>,
) -> Seq<char> {
    "\\xrightarrow{"@ + label + "} "@ + matrix_latex(g, separator)
}

/// Clears column `c` in the rows from `r` on, but for the pivot row `i`: from each
/// row with a nonzero entry there, the fitting multiple of row `i` is subtracted,
/// and the subtraction's label is added to `ops`.
pub open spec fn eliminate_from<T: MatrixNumber>(
    g: Seq<Seq<T>>,
    i: int,
    c: int,
    r: int,
    ops: Seq<Seq<char>>,
) -> Option<(Seq<Seq<T>>, Seq<Seq<char>>)>
    decreases g.len() - r,
{
    if r >= g.len() || r < 0 {
        Some((g, ops))
    } else if r == i || g[r][c] == T::zero_spec() {
        eliminate_from(g, i, c, r + 1, ops)
    } else {
        match g[r][c].div_spec(g[i][c]) {
            None => None,
            Some(p) => match reduce_from(g[r], g[i], p, c) {
                None => None,
                Some(row) => match coefficient_text(p) {
                    None => None,
                    Some(t) => eliminate_from(
                        g.update(r, row),
                        i,
                        c,
                        r + 1,
                        ops.push(combination_label(r, t, i)),
                    ),
                },
            },
        }
    }
}

/// The grid and the trace while a matrix is being reduced.
pub struct Progress<T> {
    pub grid: Seq<Seq<T>>,
    pub steps: Seq<Seq<char>>,
}

/// Brings the pivot row `j` to position `i`, recording the exchange if there is one.
pub open spec fn after_swap<T: MatrixNumber>(
    p: Progress<T>,
    i: int,
    j: int,
    separator: Option<usize>,
) -> Progress<T> {
    if i != j {
        Progress {
            grid: swapped(p.grid, i, j),
            steps: p.steps.push(step_text(swap_label(i, j), swapped(p.grid, i, j), separator)),
        }
    } else {
        p
    }
}

/// Divides row `i` by its entry in column `c` unless that entry is one already,
/// recording the division if there is one.
pub open spec fn after_scale<T: MatrixNumber>(
    p: Progress<T>,
    i: int,
    c: int,
    separator: Option<usize>,
) -> Option<Progress<T>> {
    if p.grid[i][c] == T::one_spec() {
        Some(p)
    } else {
        match scale_from(p.grid[i], p.grid[i][c], c) {
            None => None,
            Some(row) => Some(
                Progress {
                    grid: p.grid.update(i, row),
                    steps: p.steps.push(
                        step_text(
                            scale_label(i, p.grid[i][c]),
                            p.grid.update(i, row),
                            separator,
                        ),
                    ),
                },
            ),
        }
    }
}

/// Clears column `c` in all rows but row `i`, recording all subtractions as one
/// step if there is any.
pub open spec fn after_elimination<T: MatrixNumber>(
    p: Progress<T>,
    i: int,
    c: int,
    separator: Option<usize>,
) -> Option<Progress<T>> {
    match eliminate_from(p.grid, i, c, 0, Seq::empty()) {
        None => None,
        Some((grid, ops)) => Some(
            Progress {
                grid,
                steps: if ops.len() > 0 {
                    p.steps.push(step_text(stacked_label(ops), grid, separator))
                } else {
                    p.steps
                },
            },
        ),
    }
}

/// One round with a usable pivot in row `j`: exchange, division, elimination.
pub open spec fn pivot_step<T: MatrixNumber>(
    p: Progress<T>,
    i: int,
    j: int,
    c: int,
    separator: Option<usize>,
) -> Option<Progress<T>> {
    match after_scale(after_swap(p, i, j, separator), i, c, separator) {
        None => None,
        Some(scaled) => after_elimination(scaled, i, c, separator),
    }
}

/// The reduction from the cursor `(i, c)` on, for a grid of `cols` columns: while
/// rows and columns are left, a pivot is chosen in column `c` among the rows from
/// `i` on; a zero pivot moves the cursor to the next column, any other pivot is
/// used and moves it to the next row and column. `None` when an operation on the
/// numbers fails.
pub open spec fn reduce<T: MatrixNumber>(
    p: Progress<T>,
    i: int,
    c: int,
    cols: int,
    separator: Option<usize>,
) -> Option<Progress<T>>
    decreases cols - c,
{
    if c >= cols || i >= p.grid.len() || c < 0 || i < 0 {
        Some(p)
    } else {
        match pivot_row(p.grid, c, i) {
            None => None,
            Some(j) => if p.grid[j][c] == T::zero_spec() {
                reduce(p, i, c + 1, cols, separator)
            } else {
                match pivot_step(p, i, j, c, separator) {
                    None => None,
                    Some(next) => reduce(next, i + 1, c + 1, cols, separator),
                }
            },
        }
    }
}

/// The reduced row echelon form of a grid with the trace of the steps that lead
/// to it. The trace starts with the grid itself; an empty grid is left as it is,
/// with an empty trace. `None` when an operation on the numbers fails.
pub open spec fn echelon_of<T: MatrixNumber>(g: Seq<Seq<T>>, separator: Option<usize>) -> Option<
    Progress<T>,
> {
    if is_empty_grid(g) {
        Some(Progress { grid: g, steps: Seq::empty() })
    } else {
        reduce(
            Progress { grid: g, steps: seq![matrix_latex(g, separator)] },
            0,
            0,
            g[0].len() as int,
            separator,
        )
    }
}

/// Every row of `g` has `cols` entries, and there are `rows` of them.
pub open spec fn has_shape<T>(g: Seq<Seq<T>>, rows: int, cols: int) -> bool {
    &&& g.len() == rows
    &&& forall|r: int| 0 <= r < rows ==> (#[trigger] g[r]).len() == cols
}

/// The inverse of a square grid, found by reducing the grid with the identity
/// written to its right: when the left half has become the identity, the right
/// half is the inverse. The trace is that of the reduction.
pub open spec fn inverse_of<T: MatrixNumber>(g: Seq<Seq<T>>) -> Result<Progress<T>, Error> {
    if is_empty_grid(g) {
        Err(Error::EmptyMatrix)
    } else if height(g) != width(g) {
        Err(Error::NonSquare)
    } else {
        match echelon_of(joined(g, identity_grid::<T>(height(g))), Some(height(g) as usize)) {
            None => Err(Error::ArithmeticFailure),
            Some(p) => if matrix_eq(
                left_part(p.grid, height(g) as int),
                identity_grid::<T>(height(g)),
            ) {
                Ok(Progress { grid: right_part(p.grid, height(g) as int), steps: p.steps })
            } else {
                Err(Error::Singular)
            },
        }
    }
}

} // verus!

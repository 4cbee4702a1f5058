//! The recorded steps start with the matrix and end with the result.

use crate::grid::{is_empty_grid, matrix_latex};
use crate::reduction::{
    after_elimination, after_scale, after_swap, echelon_of, eliminate_from, pivot_row, pivot_step,
    reduce, step_text, Progress,
};
use crate::traits::MatrixNumber;
use vstd::prelude::*;

verus! {

/// The text ends with the given ending.
pub open spec fn ends_with(text: Seq<char>, ending: Seq<char>) -> bool {
    text.len() >= ending.len() && text.subrange(text.len() - ending.len(), text.len() as int)
        == ending
}

/// The trace starts with `first`, and its last step shows the grid as it is now.
pub open spec fn framed<T: MatrixNumber>(
    p: Progress<T>,
    first: Seq<char>,
    separator: Option<usize>,
) -> bool {
    &&& p.steps.len() > 0
    &&& p.steps[0] == first
    &&& ends_with(p.steps.last(), matrix_latex(p.grid, separator))
}

/// A recorded step shows the grid it led to.
pub proof fn lemma_step_shows_grid<T: MatrixNumber>(
    label: Seq<char>,
    g: Seq<Seq<T>>,
    separator: Option<usize>,
)
    ensures
        ends_with(step_text(label, g, separator), matrix_latex(g, separator)),
{
    let text = step_text(label, g, separator);
    let ending = matrix_latex(g, separator);
    assert(text.subrange(text.len() - ending.len(), text.len() as int) =~= ending);
}

/// Where no subtraction is recorded, the elimination has left the grid as it was.
pub proof fn lemma_no_labels_no_change<T: MatrixNumber>(
    g: Seq<Seq<T>>,
    i: int,
    c: int,
    r: int,
    ops: Seq<Seq<char>>,
)
    requires
        0 <= r,
    ensures
        eliminate_from(g, i, c, r, ops) matches Some(out) ==> out.1.len() >= ops.len() && (
        out.1.len() == ops.len() ==> out.0 == g),
    decreases g.len() - r,
{
    if r < g.len() {
        if r == i || g[r][c] == T::zero_spec() {
            lemma_no_labels_no_change(g, i, c, r + 1, ops);
        } else if let Some(out) = eliminate_from(g, i, c, r, ops) {
            let p = g[r][c].div_spec(g[i][c]).unwrap();
            let row = crate::reduction::reduce_from(g[r], g[i], p, c).unwrap();
            let label = crate::reduction::combination_label(
                r,
                crate::reduction::coefficient_text(p).unwrap(),
                i,
            );
            lemma_no_labels_no_change(g.update(r, row), i, c, r + 1, ops.push(label));
        }
    }
}

/// One round with a pivot keeps the frame of the trace.
pub proof fn lemma_pivot_step_framed<T: MatrixNumber>(
    p: Progress<T>,
    i: int,
    j: int,
    c: int,
    first: Seq<char>,
    separator: Option<usize>,
)
    requires
        framed(p, first, separator),
        0 <= i < p.grid.len(),
        0 <= j < p.grid.len(),
    ensures
        pivot_step(p, i, j, c, separator) matches Some(q) ==> framed(q, first, separator),
{
    let exchanged = after_swap(p, i, j, separator);
    if i != j {
        lemma_step_shows_grid(crate::reduction::swap_label(i, j), exchanged.grid, separator);
    }
    assert(framed(exchanged, first, separator));
    if let Some(scaled) = after_scale(exchanged, i, c, separator) {
        if exchanged.grid[i][c] != T::one_spec() {
            lemma_step_shows_grid(
                crate::reduction::scale_label(i, exchanged.grid[i][c]),
                scaled.grid,
                separator,
            );
        }
        assert(framed(scaled, first, separator));
        if let Some(q) = after_elimination(scaled, i, c, separator) {
            let out = eliminate_from(scaled.grid, i, c, 0, Seq::empty())->Some_0;
            lemma_no_labels_no_change(scaled.grid, i, c, 0, Seq::empty());
            if out.1.len() > 0 {
                lemma_step_shows_grid(crate::reduction::stacked_label(out.1), out.0, separator);
            }
        }
    }
}

/// The reduction keeps the frame of the trace.
pub proof fn lemma_reduce_framed<T: MatrixNumber>(
    p: Progress<T>,
    i: int,
    c: int,
    cols: int,
    first: Seq<char>,
    separator: Option<usize>,
)
    requires
        framed(p, first, separator),
        0 <= i,
        0 <= c,
    ensures
        reduce(p, i, c, cols, separator) matches Some(q) ==> framed(q, first, separator)
            && q.grid.len() == p.grid.len(),
    decreases cols - c,
{
    if c < cols && i < p.grid.len() {
        crate::theory::singular::lemma_select_in_range(p.grid, c, i + 1, i);
        if let Some(j) = pivot_row(p.grid, c, i) {
            if p.grid[j][c] == T::zero_spec() {
                lemma_reduce_framed(p, i, c + 1, cols, first, separator);
            } else {
                lemma_pivot_step_framed(p, i, j, c, first, separator);
                if let Some(next) = pivot_step(p, i, j, c, separator) {
                    lemma_pivot_step_rows(p, i, j, c, separator);
                    lemma_reduce_framed(next, i + 1, c + 1, cols, first, separator);
                }
            }
        }
    }
}

/// One round with a pivot keeps the number of rows.
pub proof fn lemma_pivot_step_rows<T: MatrixNumber>(
    p: Progress<T>,
    i: int,
    j: int,
    c: int,
    separator: Option<usize>,
)
    requires
        0 <= i < p.grid.len(),
        0 <= j < p.grid.len(),
        0 <= c,
    ensures
        pivot_step(p, i, j, c, separator) matches Some(q) ==> q.grid.len() == p.grid.len(),
{
    let exchanged = after_swap(p, i, j, separator);
    if let Some(scaled) = after_scale(exchanged, i, c, separator) {
        crate::theory::singular::lemma_eliminate_keeps(scaled.grid, i, c, 0, Seq::empty());
    }
}

/// The trace of a reduction starts with the rendering of the matrix that was
/// given, and its last step shows the matrix that is returned.
pub proof fn lemma_trace_is_framed<T: MatrixNumber>(g: Seq<Seq<T>>, separator: Option<usize>)
    requires
        !is_empty_grid(g),
    ensures
        echelon_of(g, separator) matches Some(p) ==> framed(
            p,
            matrix_latex(g, separator),
            separator,
        ),
{
    let first = matrix_latex(g, separator);
    let start = Progress { grid: g, steps: seq![first] };
    assert(first.subrange(0, first.len() as int) =~= first);
    lemma_reduce_framed(start, 0, 0, g[0].len() as int, first, separator);
}

} // verus!

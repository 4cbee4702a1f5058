//! The reduction leaves a matrix in reduced row echelon form as it is.

use crate::grid::{is_empty_grid, matrix_latex};
use crate::reduction::{
    after_elimination, after_scale, after_swap, echelon_of, eliminate_from, has_shape, pivot_row,
    pivot_step, rank, reduce, select_from, Progress,
};
use crate::traits::MatrixNumber;
use vstd::prelude::*;

verus! {

/// The position of the first nonzero entry of a row from `k` on; the length of
/// the row when there is none.
pub open spec fn lead_from<T: MatrixNumber>(row: Seq<T>, k: int) -> int
    decreases row.len() - k,
{
    if k >= row.len() || k < 0 {
        row.len() as int
    } else if row[k] != T::zero_spec() {
        k
    } else {
        lead_from(row, k + 1)
    }
}

/// The position of the first nonzero entry of a row, its pivot; the length of the
/// row when the row is zero.
pub open spec fn lead<T: MatrixNumber>(row: Seq<T>) -> int {
    lead_from(row, 0)
}

/// Reduced row echelon form: every pivot is one, the pivots step strictly to the
/// right going down with the zero rows at the bottom, and a pivot is the only
/// nonzero entry of its column.
pub open spec fn is_reduced<T: MatrixNumber>(g: Seq<Seq<T>>) -> bool {
    &&& g.len() > 0
    &&& has_shape(g, g.len() as int, g[0].len() as int)
    &&& forall|r: int|
        0 <= r < g.len() && lead(#[trigger] g[r]) < g[0].len() ==> g[r][lead(g[r])]
            == T::one_spec()
    &&& forall|r: int, s: int|
        0 <= r < s < g.len() && lead(#[trigger] g[s]) < g[0].len() ==> lead(#[trigger] g[r]) < lead(
            g[s],
        )
    &&& forall|r: int, s: int|
        0 <= r < g.len() && 0 <= s < g.len() && r != s && lead(#[trigger] g[r]) < g[0].len()
            ==> (#[trigger] g[s])[lead(g[r])] == T::zero_spec()
}

/// Before its pivot a row is zero, and the pivot itself is not.
pub proof fn lemma_lead<T: MatrixNumber>(row: Seq<T>, k: int)
    requires
        0 <= k <= row.len(),
    ensures
        k <= lead_from(row, k) <= row.len(),
        forall|t: int| k <= t < lead_from(row, k) ==> #[trigger] row[t] == T::zero_spec(),
        lead_from(row, k) < row.len() ==> row[lead_from(row, k)] != T::zero_spec(),
    decreases row.len() - k,
{
    if k < row.len() && row[k] == T::zero_spec() {
        lemma_lead(row, k + 1);
    }
}

/// Among rows that are zero in column `c`, the choice of a pivot row stays with
/// row `j`.
pub proof fn lemma_select_keeps<T: MatrixNumber>(g: Seq<Seq<T>>, c: int, k: int, j: int)
    requires
        0 <= k,
        rank(g[j][c]) is Some,
        rank(g[j][c])->0 <= 1000,
        forall|t: int| k <= t < g.len() ==> (#[trigger] g[t])[c] == T::zero_spec(),
    ensures
        select_from(g, c, k, j) == Some(j),
    decreases g.len() - k,
{
    if k < g.len() {
        assert(g[k][c] == T::zero_spec());
        lemma_select_keeps(g, c, k + 1, j);
    }
}

/// Where every row but the pivot row is zero in column `c`, nothing is
/// subtracted.
pub proof fn lemma_eliminate_nothing<T: MatrixNumber>(
    g: Seq<Seq<T>>,
    i: int,
    c: int,
    r: int,
    ops: Seq<Seq<char>>,
)
    requires
        0 <= r,
        forall|t: int| r <= t < g.len() && t != i ==> (#[trigger] g[t])[c] == T::zero_spec(),
    ensures
        eliminate_from(g, i, c, r, ops) == Some((g, ops)),
    decreases g.len() - r,
{
    if r < g.len() {
        if r != i {
            assert(g[r][c] == T::zero_spec());
        }
        lemma_eliminate_nothing(g, i, c, r + 1, ops);
    }
}

/// From any cursor that the pivots of the rows below it have not passed, the
/// reduction of a reduced matrix changes nothing.
pub proof fn lemma_reduce_keeps_reduced<T: MatrixNumber>(
    p: Progress<T>,
    i: int,
    c: int,
    separator: Option<usize>,
)
    requires
        is_reduced(p.grid),
        0 <= i,
        0 <= c,
        forall|k: int| i <= k < p.grid.len() ==> lead(#[trigger] p.grid[k]) >= c,
    ensures
        reduce(p, i, c, p.grid[0].len() as int, separator) == Some(p),
    decreases p.grid[0].len() - c,
{
    let g = p.grid;
    let cols = g[0].len() as int;
    if c < cols && i < g.len() {
        T::lemma_zero_is_not_one();
        assert(g[i].len() == cols);
        lemma_lead(g[i], 0);
        assert forall|t: int| i + 1 <= t < g.len() implies (#[trigger] g[t])[c]
            == T::zero_spec() by {
            assert(g[t].len() == cols);
            lemma_lead(g[t], 0);
            if lead(g[t]) < cols {
                assert(lead(g[i]) < lead(g[t]));
            }
        }
        if lead(g[i]) == c {
            assert(g[i][c] == T::one_spec());
            lemma_select_keeps(g, c, i + 1, i);
            assert(pivot_row(g, c, i) == Some(i));
            assert(after_swap(p, i, i, separator) == p);
            assert(after_scale(p, i, c, separator) == Some(p));
            assert forall|t: int| 0 <= t < g.len() && t != i implies (#[trigger] g[t])[c]
                == T::zero_spec() by {
                assert(g[t][lead(g[i])] == T::zero_spec());
            }
            lemma_eliminate_nothing(g, i, c, 0, Seq::empty());
            assert(after_elimination(p, i, c, separator) == Some(p));
            assert(pivot_step(p, i, i, c, separator) == Some(p));
            assert forall|k: int| i + 1 <= k < g.len() implies lead(#[trigger] g[k]) >= c + 1 by {
                assert(g[k].len() == cols);
                lemma_lead(g[k], 0);
                if lead(g[k]) < cols {
                    assert(lead(g[i]) < lead(g[k]));
                }
            }
            lemma_reduce_keeps_reduced(p, i + 1, c + 1, separator);
        } else {
            assert(g[i][c] == T::zero_spec());
            lemma_select_keeps(g, c, i + 1, i);
            assert(pivot_row(g, c, i) == Some(i));
            assert forall|k: int| i <= k < g.len() implies lead(#[trigger] g[k]) >= c + 1 by {
                assert(g[k].len() == cols);
                lemma_lead(g[k], 0);
                if k > i && lead(g[k]) < cols {
                    assert(lead(g[i]) < lead(g[k]));
                }
            }
            lemma_reduce_keeps_reduced(p, i, c + 1, separator);
        }
    }
}

/// Reducing a matrix that is in reduced row echelon form gives the matrix itself,
/// and the trace holds nothing but its rendering.
pub proof fn lemma_echelon_of_reduced<T: MatrixNumber>(g: Seq<Seq<T>>, separator: Option<usize>)
    requires
        is_reduced(g),
        !is_empty_grid(g),
    ensures
        echelon_of(g, separator) == Some(
            Progress { grid: g, steps: seq![matrix_latex(g, separator)] },
        ),
{
    let start = Progress { grid: g, steps: seq![matrix_latex(g, separator)] };
    assert forall|k: int| 0 <= k < g.len() implies lead(#[trigger] g[k]) >= 0 by {
        assert(g[k].len() == g[0].len());
        lemma_lead(g[k], 0);
    }
    lemma_reduce_keeps_reduced(start, 0, 0, separator);
}

} // verus!

//! A matrix with a row of zeros has no inverse.

use crate::grid::{
    height, identity_grid, is_empty_grid, joined, left_part, lemma_grid_from, matrix_eq,
    rectangular, width,
};
use crate::reduction::{
    after_elimination, after_scale, after_swap, echelon_of, eliminate_from, has_shape, inverse_of,
    pivot_row, pivot_step, reduce, reduce_from, scale_from, select_from, Progress,
};
use crate::traits::MatrixNumber;
use vstd::prelude::*;

verus! {

/// The first `n` entries of the row are zero.
pub open spec fn left_zero<T: MatrixNumber>(row: Seq<T>, n: int) -> bool {
    forall|t: int| 0 <= t < n ==> #[trigger] row[t] == T::zero_spec()
}

/// Some row of the grid is zero in its first `n` entries.
pub open spec fn has_left_zero_row<T: MatrixNumber>(g: Seq<Seq<T>>, n: int) -> bool {
    exists|r: int| 0 <= r < g.len() && left_zero(#[trigger] g[r], n)
}

/// The chosen pivot row is the one at hand or one of the rows looked at.
pub proof fn lemma_select_in_range<T: MatrixNumber>(g: Seq<Seq<T>>, c: int, k: int, j: int)
    requires
        0 <= j < k,
    ensures
        select_from(g, c, k, j) matches Some(chosen) ==> j <= chosen < g.len() || chosen == j,
    decreases g.len() - k,
{
    if k < g.len() {
        lemma_select_in_range(g, c, k + 1, j);
        lemma_select_in_range(g, c, k + 1, k);
    }
}

/// Dividing a row from column `k` on keeps its length and its entries before `k`.
pub proof fn lemma_scale_keeps_head<T: MatrixNumber>(row: Seq<T>, d: T, k: int)
    requires
        0 <= k,
    ensures
        scale_from(row, d, k) matches Some(out) ==> out.len() == row.len() && forall|t: int|
            0 <= t < k && t < row.len() ==> #[trigger] out[t] == row[t],
    decreases row.len() - k,
{
    if k < row.len() {
        if let Some(v) = row[k].div_spec(d) {
            lemma_scale_keeps_head(row.update(k, v), d, k + 1);
        }
    }
}

/// Subtracting a multiple of the pivot row from column `k` on keeps the length of
/// a row and its entries before `k`.
pub proof fn lemma_reduce_keeps_head<T: MatrixNumber>(row: Seq<T>, pivot: Seq<T>, p: T, k: int)
    requires
        0 <= k,
    ensures
        reduce_from(row, pivot, p, k) matches Some(out) ==> out.len() == row.len() && forall|
            t: int,
        |
            0 <= t < k && t < row.len() ==> #[trigger] out[t] == row[t],
    decreases row.len() - k,
{
    if k < row.len() {
        if let Some(m) = pivot[k].mul_spec(p) {
            if let Some(v) = row[k].sub_spec(m) {
                lemma_reduce_keeps_head(row.update(k, v), pivot, p, k + 1);
            }
        }
    }
}

/// Clearing column `c` keeps the number of rows and their lengths, leaves every
/// entry before column `c` as it is, and does not touch the pivot row, the rows
/// already passed, or a row that is zero in column `c`.
pub proof fn lemma_eliminate_keeps<T: MatrixNumber>(
    g: Seq<Seq<T>>,
    i: int,
    c: int,
    r: int,
    ops: Seq<Seq<char>>,
)
    requires
        0 <= r,
        0 <= c,
    ensures
        eliminate_from(g, i, c, r, ops) matches Some(out) ==> {
            &&& out.0.len() == g.len()
            &&& forall|t: int| 0 <= t < g.len() ==> (#[trigger] out.0[t]).len() == g[t].len()
            &&& forall|t: int, u: int|
                0 <= t < g.len() && 0 <= u < c && u < g[t].len() ==> #[trigger] out.0[t][u]
                    == g[t][u]
            &&& forall|t: int|
                0 <= t < g.len() && (t == i || t < r || g[t][c] == T::zero_spec())
                    ==> #[trigger] out.0[t] == g[t]
        },
    decreases g.len() - r,
{
    if r < g.len() {
        if r == i || g[r][c] == T::zero_spec() {
            lemma_eliminate_keeps(g, i, c, r + 1, ops);
        } else {
            if let Some(p) = g[r][c].div_spec(g[i][c]) {
                if let Some(row) = reduce_from(g[r], g[i], p, c) {
                    lemma_reduce_keeps_head(g[r], g[i], p, c);
                    let next = g.update(r, row);
                    if let Some(out) = eliminate_from(g, i, c, r, ops) {
                        lemma_eliminate_keeps(
                            next,
                            i,
                            c,
                            r + 1,
                            ops.push(
                                crate::reduction::combination_label(
                                    r,
                                    crate::reduction::coefficient_text(p)->0,
                                    i,
                                ),
                            ),
                        );
                        assert forall|t: int| 0 <= t < g.len() implies (#[trigger] out.0[t]).len()
                            == g[t].len() by {
                            assert(out.0[t].len() == next[t].len());
                        }
                        assert forall|t: int, u: int|
                            0 <= t < g.len() && 0 <= u < c && u < g[t].len() implies #[trigger] out.0[t][u]
                            == g[t][u] by {
                            assert(out.0[t].len() == next[t].len());
                            assert(out.0[t][u] == next[t][u]);
                        }
                        assert forall|t: int|
                            0 <= t < g.len() && (t == i || t < r || g[t][c]
                                == T::zero_spec()) implies #[trigger] out.0[t] == g[t] by {
                            assert(t != r);
                            assert(next[t] == g[t]);
                            assert(out.0[t] == next[t]);
                        }
                    }
                }
            }
        }
    }
}

/// One round with a pivot keeps the shape of the grid, and a grid with a row that
/// is zero in its first `n` entries still has such a row afterwards.
pub proof fn lemma_pivot_step_keeps_zero_row<T: MatrixNumber>(
    p: Progress<T>,
    i: int,
    j: int,
    c: int,
    cols: int,
    separator: Option<usize>,
    n: int,
)
    requires
        has_shape(p.grid, p.grid.len() as int, cols),
        0 <= i <= j < p.grid.len(),
        0 <= c < cols,
        0 <= n <= cols,
        p.grid[j][c] != T::zero_spec(),
        has_left_zero_row(p.grid, n),
    ensures
        pivot_step(p, i, j, c, separator) matches Some(q) ==> has_shape(
            q.grid,
            p.grid.len() as int,
            cols,
        ) && has_left_zero_row(q.grid, n),
{
    let g = p.grid;
    let rows = g.len() as int;
    let r = choose|r: int| 0 <= r < g.len() && left_zero(#[trigger] g[r], n);
    let exchanged = after_swap(p, i, j, separator);
    let g1 = exchanged.grid;
    // Where the row that is zero on the left stands after the exchange.
    let r1 = if r == i {
        j
    } else if r == j {
        i
    } else {
        r
    };
    assert(g1.len() == rows);
    assert(g1[r1] == g[r]);
    assert(has_shape(g1, rows, cols)) by {
        assert forall|t: int| 0 <= t < rows implies (#[trigger] g1[t]).len() == cols by {
            assert(g[t].len() == cols);
            assert(g[i].len() == cols);
            assert(g[j].len() == cols);
        }
    }
    assert(g1[i] == g[j]);
    if let Some(scaled) = after_scale(exchanged, i, c, separator) {
        let g2 = scaled.grid;
        assert(g1[i].len() == cols);
        lemma_scale_keeps_head(g1[i], g1[i][c], c);
        assert(g2.len() == rows);
        assert(has_shape(g2, rows, cols)) by {
            assert forall|t: int| 0 <= t < rows implies (#[trigger] g2[t]).len() == cols by {
                assert(g1[t].len() == cols);
            }
        }
        assert(left_zero(g2[r1], n)) by {
            assert(g1[r1].len() == cols);
            if r1 != i {
                assert(g2[r1] == g1[r1]);
            } else {
                // The pivot row is zero on the left only when the pivot lies
                // in the right part, and then the division starts there.
                assert(g1[i][c] != T::zero_spec());
                assert(c >= n);
                assert forall|t: int| 0 <= t < n implies #[trigger] g2[r1][t]
                    == T::zero_spec() by {
                    assert(g2[r1][t] == g1[r1][t]);
                }
            }
        }
        if let Some(q) = after_elimination(scaled, i, c, separator) {
            lemma_eliminate_keeps(g2, i, c, 0, Seq::empty());
            let g3 = q.grid;
            assert(has_shape(g3, rows, cols)) by {
                assert forall|t: int| 0 <= t < rows implies (#[trigger] g3[t]).len() == cols by {
                    assert(g2[t].len() == cols);
                }
            }
            assert(left_zero(g3[r1], n)) by {
                assert(g2[r1].len() == cols);
                if c >= n {
                    assert forall|t: int| 0 <= t < n implies #[trigger] g3[r1][t]
                        == T::zero_spec() by {
                        assert(g3[r1][t] == g2[r1][t]);
                    }
                } else {
                    assert(g2[r1][c] == T::zero_spec());
                    assert(g3[r1] == g2[r1]);
                }
            }
            assert(has_left_zero_row(g3, n));
        }
    }
}

/// The reduction keeps the shape of the grid, and a grid with a row that is zero
/// in its first `n` entries still has such a row when the reduction is done.
pub proof fn lemma_reduce_keeps_zero_row<T: MatrixNumber>(
    p: Progress<T>,
    i: int,
    c: int,
    cols: int,
    separator: Option<usize>,
    n: int,
)
    requires
        has_shape(p.grid, p.grid.len() as int, cols),
        0 <= i,
        0 <= c,
        0 <= n <= cols,
        has_left_zero_row(p.grid, n),
    ensures
        reduce(p, i, c, cols, separator) matches Some(q) ==> has_shape(
            q.grid,
            p.grid.len() as int,
            cols,
        ) && has_left_zero_row(q.grid, n),
    decreases cols - c,
{
    if c < cols && i < p.grid.len() {
        lemma_select_in_range(p.grid, c, i + 1, i);
        if let Some(j) = pivot_row(p.grid, c, i) {
            if p.grid[j][c] == T::zero_spec() {
                lemma_reduce_keeps_zero_row(p, i, c + 1, cols, separator, n);
            } else {
                lemma_pivot_step_keeps_zero_row(p, i, j, c, cols, separator, n);
                if let Some(next) = pivot_step(p, i, j, c, separator) {
                    lemma_reduce_keeps_zero_row(next, i + 1, c + 1, cols, separator, n);
                }
            }
        }
    }
}

/// Some row of the grid holds nothing but zeros.
pub open spec fn has_zero_row<T: MatrixNumber>(g: Seq<Seq<T>>) -> bool {
    exists|r: int| 0 <= r < g.len() && left_zero(#[trigger] g[r], g[r].len() as int)
}

/// A matrix with a row of zeros has no inverse: the inversion fails, and never
/// returns a matrix.
pub proof fn lemma_zero_row_has_no_inverse<T: MatrixNumber>(g: Seq<Seq<T>>, r: int)
    requires
        rectangular(g),
        0 <= r < g.len(),
        forall|t: int| 0 <= t < g[r].len() ==> #[trigger] g[r][t] == T::zero_spec(),
    ensures
        inverse_of(g) is Err,
{
    if !is_empty_grid(g) && height(g) == width(g) {
        let n = height(g) as int;
        let identity = identity_grid::<T>(n as nat);
        lemma_grid_from(
            n as nat,
            n as nat,
            |i: int, j: int|
                if i == j {
                    T::one_spec()
                } else {
                    T::zero_spec()
                },
        );
        let augmented = joined(g, identity);
        let separator = Some(n as usize);
        assert(has_shape(augmented, n, 2 * n)) by {
            assert forall|t: int| 0 <= t < n implies (#[trigger] augmented[t]).len() == 2 * n by {
                assert(g[t].len() == g[0].len());
                assert(identity[t].len() == n);
            }
        }
        assert(left_zero(augmented[r], n)) by {
            assert(g[r].len() == g[0].len());
            assert forall|t: int| 0 <= t < n implies #[trigger] augmented[r][t]
                == T::zero_spec() by {
                assert(augmented[r][t] == g[r][t]);
            }
        }
        assert(has_left_zero_row(augmented, n));
        assert(augmented[0].len() == 2 * n);
        let start = Progress { grid: augmented, steps: seq![crate::grid::matrix_latex(augmented, separator)] };
        lemma_reduce_keeps_zero_row(start, 0, 0, 2 * n, separator, n);
        if let Some(q) = echelon_of(augmented, separator) {
            let z = choose|z: int| 0 <= z < q.grid.len() && left_zero(#[trigger] q.grid[z], n);
            let left = left_part(q.grid, n);
            assert(q.grid[z].len() == 2 * n);
            assert(left[z][z] == q.grid[z][z]);
            assert(left[z][z] == T::zero_spec());
            assert(identity[z][z] == T::one_spec());
            T::lemma_zero_is_not_one();
            assert(left != identity);
            assert(!is_empty_grid(identity));
            assert(!matrix_eq(left, identity));
        }
    }
}

} // verus!

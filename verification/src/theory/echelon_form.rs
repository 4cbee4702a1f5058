//! The reduction of a matrix of fractions gives the reduced row echelon form.

use crate::theory::field::{lemma_cancel, lemma_constants_ok, lemma_mul_one, q_one, q_zero};
use crate::grid::{is_empty_grid, matrix_latex, rectangular};
use crate::theory::inversion::{
    cleared_row, exact_grid, exact_row, lemma_eliminate_rows, lemma_pivot_step_grids,
    lemma_select_zero, pivot_scaled, zero_before, zero_below,
};
use crate::rationals::{lemma_exact_arithmetic, lemma_exact_constants, Rational};
use crate::theory::reduced::{is_reduced, lead, lead_from, lemma_echelon_of_reduced, lemma_lead};
use crate::reduction::{
    echelon_of, has_shape, pivot_row, pivot_step, reduce, scale_from, swapped, Progress,
};
use crate::traits::{CheckedOps, MatrixNumber};
use vstd::prelude::*;

verus! {

/// What holds of the grid while it is being reduced, with the cursor at row `i`
/// and column `c`: the rows above the cursor are pivot rows, each with a one as
/// its first entry that is not zero, in a column before `c` that is zero in all
/// other rows, the pivots stepping to the right going down; and the rows from the
/// cursor on are zero before column `c`.
pub open spec fn reducing(g: Seq<Seq<Rational>>, i: int, c: int, rows: int, cols: int) -> bool {
    &&& has_shape(g, rows, cols)
    &&& exact_grid(g)
    &&& 0 <= i <= rows
    &&& 0 <= c <= cols
    &&& zero_below(g, i, c)
    &&& forall|r: int|
        0 <= r < i ==> lead(#[trigger] g[r]) < c && g[r][lead(g[r])] == Rational::one_spec()
    &&& forall|r: int, s: int| 0 <= r < s < i ==> lead(#[trigger] g[r]) < lead(#[trigger] g[s])
    &&& forall|r: int, s: int|
        0 <= r < i && 0 <= s < rows && r != s ==> (#[trigger] g[s])[lead(#[trigger] g[r])]
            == Rational::zero_spec()
}

/// The first entry that is not zero is found among the entries before it and
/// itself: rows that agree up to the pivot of one have the same pivot.
pub proof fn lemma_lead_of_prefix(row: Seq<Rational>, other: Seq<Rational>, k: int)
    requires
        0 <= k,
        row.len() == other.len(),
        lead_from(row, k) < row.len(),
        forall|t: int| 0 <= t <= lead_from(row, k) ==> #[trigger] other[t] == row[t],
    ensures
        lead_from(other, k) == lead_from(row, k),
    decreases row.len() - k,
{
    if k < row.len() {
        lemma_lead(row, k);
        assert(other[k] == row[k]);
        if row[k] == Rational::zero_spec() {
            lemma_lead_of_prefix(row, other, k + 1);
        }
    }
}

/// A row that is zero before column `c` and not zero there has its pivot at `c`;
/// a row that is zero throughout has none.
pub proof fn lemma_lead_at(row: Seq<Rational>, c: int, k: int)
    requires
        0 <= k <= c <= row.len(),
        zero_before(row, c),
    ensures
        c < row.len() && row[c] != Rational::zero_spec() ==> lead_from(row, k) == c,
        c == row.len() ==> lead_from(row, k) == row.len(),
    decreases c - k,
{
    if k < c {
        assert(row[k] == Rational::zero_spec());
        lemma_lead_at(row, c, k + 1);
    }
}

/// One round with a pivot keeps what holds while a grid is being reduced, and
/// moves the cursor to the next row and column.
pub proof fn lemma_pivot_step_reducing(
    p: Progress<Rational>,
    i: int,
    j: int,
    c: int,
    rows: int,
    cols: int,
    separator: Option<usize>,
)
    requires
        reducing(p.grid, i, c, rows, cols),
        0 <= i <= j < rows,
        0 <= c < cols,
        p.grid[j][c] != Rational::zero_spec(),
    ensures
        pivot_step(p, i, j, c, separator) matches Some(q) ==> reducing(
            q.grid,
            i + 1,
            c + 1,
            rows,
            cols,
        ),
{
    if let Some(q) = pivot_step(p, i, j, c, separator) {
        let g = p.grid;
        let zero = Rational::zero_spec();
        let one = Rational::one_spec();
        lemma_constants_ok();
        lemma_exact_constants();
        lemma_pivot_step_grids(p, i, j, c, separator);
        let g1 = swapped(g, i, j);
        let g2 = pivot_scaled(g1, i, c)->Some_0;
        let g3 = q.grid;
        assert(g1.len() == rows);
        assert(g1[i] == g[j]);
        assert(g1[j] == g[i]);
        // After the exchange.
        assert forall|r: int| 0 <= r < rows implies (#[trigger] g1[r]).len() == cols
            && exact_row(g1[r]) && (r >= i ==> zero_before(g1[r], c)) && (r < i ==> g1[r]
            == g[r]) by {
            let source = if r == i {
                j
            } else if r == j {
                i
            } else {
                r
            };
            assert(g1[r] == g[source]);
            assert(g[source].len() == cols);
            assert(exact_row(g[source]));
            if r >= i {
                assert(zero_before(g[source], c));
            }
        }
        // After the division: the pivot row is exact, zero before `c`, and one at `c`.
        let d = g1[i][c];
        assert(g1[i].len() == cols);
        assert(exact_row(g1[i]));
        assert(d.wf());
        assert(zero_before(g1[i], c));
        lemma_exact_arithmetic(d, d);
        lemma_scale_row_shape(g1[i], d, c, cols);
        let pivot = g2[i];
        assert(g2.len() == rows);
        assert(pivot.len() == cols && exact_row(pivot) && zero_before(pivot, c) && pivot[c]
            == one) by {
            if d != one {
                lemma_cancel(d.value());
                assert(pivot[c].value() == q_one());
                assert(pivot[c].wf());
                lemma_exact_arithmetic(pivot[c], one);
            }
        }
        assert forall|r: int| 0 <= r < rows && r != i implies #[trigger] g2[r] == g1[r] by {}
        // After the elimination.
        lemma_eliminate_rows(g2, i, c, 0, Seq::empty());
        assert(g3.len() == rows);
        assert(g3[i] == pivot);
        assert forall|r: int| 0 <= r < rows implies (#[trigger] g3[r]).len() == cols
            && exact_row(g3[r]) && (forall|k: int| 0 <= k < c ==> g3[r][k] == g2[r][k]) && (r
            != i ==> g3[r][c] == zero) by {
            let row = g2[r];
            assert(row.len() == cols && exact_row(row)) by {
                if r != i {
                    assert(g2[r] == g1[r]);
                }
            }
            assert(row[c].wf());
            if r == i || row[c] == zero {
                assert(g3[r] == row);
            } else {
                assert(cleared_row(g2, i, c, r) == Some(g3[r]));
                let factor = row[c].div_spec(pivot[c]).unwrap();
                lemma_exact_arithmetic(row[c], pivot[c]);
                lemma_reduce_shape(row, pivot, factor, c, cols);
                let x = row[c].value();
                lemma_mul_one(x);
                lemma_cancel(x);
                assert(g3[r][c].value() == q_zero());
                assert(g3[r][c].wf());
                lemma_exact_arithmetic(g3[r][c], zero);
            }
        }
        // The pivot rows above the cursor keep their pivots.
        assert forall|r: int| 0 <= r < i implies lead(#[trigger] g3[r]) == lead(g[r]) && g3[r][lead(
            g[r],
        )] == one by {
            assert(g1[r] == g[r]);
            assert(g2[r] == g[r]);
            assert(g[r].len() == cols);
            lemma_lead(g[r], 0);
            assert forall|t: int| 0 <= t <= lead(g[r]) implies #[trigger] g3[r][t] == g[r][t] by {
                assert(g3[r][t] == g2[r][t]);
            }
            lemma_lead_of_prefix(g[r], g3[r], 0);
        }
        lemma_lead_at(g3[i], c, 0);
        assert(lead(g3[i]) == c);
        assert(zero_below(g3, i + 1, c + 1)) by {
            assert forall|r: int| i + 1 <= r < g3.len() implies zero_before(
                #[trigger] g3[r],
                c + 1,
            ) by {
                assert(g2[r] == g1[r]);
                assert(zero_before(g1[r], c));
                assert forall|k: int| 0 <= k < c + 1 && k < g3[r].len() implies #[trigger] g3[r][k]
                    == zero by {
                    if k < c {
                        assert(g3[r][k] == g2[r][k]);
                        assert(g1[r][k] == zero);
                    }
                }
            }
        }
        assert forall|r: int, s: int|
            0 <= r < i + 1 && 0 <= s < rows && r != s implies (#[trigger] g3[s])[lead(
            #[trigger] g3[r],
        )] == zero by {
            if r == i {
                assert(g3[s][c] == zero);
            } else {
                let l = lead(g[r]);
                assert(lead(g3[r]) == l);
                assert(l < c);
                lemma_lead(g[r], 0);
                assert(g3[s][l] == g2[s][l]);
                // Row `s` of the second grid is a row other than `r` of the first, up
                // to the division, which leaves the entries before `c` alone.
                let source = if s == i {
                    j
                } else if s == j {
                    i
                } else {
                    s
                };
                assert(g1[s] == g[source]);
                assert(source != r);
                assert(g[source][l] == zero);
                if s == i {
                    assert(zero_before(g1[i], c));
                    assert(zero_before(pivot, c));
                    assert(pivot[l] == zero);
                } else {
                    assert(g2[s] == g1[s]);
                }
            }
        }
        assert forall|r: int, s: int| 0 <= r < s < i + 1 implies lead(#[trigger] g3[r]) < lead(
            #[trigger] g3[s],
        ) by {
            if s == i {
                assert(lead(g3[r]) == lead(g[r]));
            } else {
                assert(lead(g3[r]) == lead(g[r]));
                assert(lead(g3[s]) == lead(g[s]));
            }
        }
        assert forall|r: int| 0 <= r < i + 1 implies lead(#[trigger] g3[r]) < c + 1 && g3[r][lead(
            g3[r],
        )] == one by {
            if r < i {
                assert(lead(g3[r]) == lead(g[r]));
            }
        }
    }
}

/// A row, zero before column `c`, that has been divided from column `c` on by a
/// fraction that is not zero is exact, as long as it was, and zero before `c`;
/// its entry at `c` is the quotient.
pub proof fn lemma_scale_row_shape(row: Seq<Rational>, d: Rational, c: int, cols: int)
    requires
        exact_row(row),
        d.wf(),
        row.len() == cols,
        0 <= c < cols,
        zero_before(row, c),
    ensures
        scale_from(row, d, c) matches Some(out) ==> out.len() == cols && exact_row(out)
            && zero_before(out, c) && row[c].div_spec(d) == Some(out[c]),
{
    if let Some(out) = scale_from(row, d, c) {
        crate::theory::inversion::lemma_scale_entries(row, d, c);
        assert forall|t: int| 0 <= t < out.len() implies (#[trigger] out[t]).wf() by {
            assert(row[t].wf());
            if t < c {
                assert(out[t] == row[t]);
            } else {
                assert(row[t].div_spec(d) == Some(out[t]));
                lemma_exact_arithmetic(row[t], d);
            }
        }
        assert forall|t: int| 0 <= t < c && t < out.len() implies #[trigger] out[t]
            == Rational::zero_spec() by {
            assert(out[t] == row[t]);
        }
    }
}

/// A row from which a multiple of an exact pivot row has been subtracted from
/// column `c` on is exact, as long as it was; the entries before `c` stay, and
/// the entry at `c` is the exact difference.
pub proof fn lemma_reduce_shape(
    row: Seq<Rational>,
    pivot: Seq<Rational>,
    p: Rational,
    c: int,
    cols: int,
)
    requires
        exact_row(row),
        exact_row(pivot),
        p.wf(),
        row.len() == cols,
        pivot.len() == cols,
        0 <= c < cols,
    ensures
        crate::reduction::reduce_from(row, pivot, p, c) matches Some(out) ==> out.len() == cols
            && exact_row(out) && (forall|t: int| 0 <= t < c ==> #[trigger] out[t] == row[t])
            && out[c].value() == crate::theory::fractions::q_sub(
            row[c].value(),
            crate::theory::fractions::q_mul(pivot[c].value(), p.value()),
        ),
{
    if let Some(out) = crate::reduction::reduce_from(row, pivot, p, c) {
        crate::theory::inversion::lemma_reduce_entries(row, pivot, p, c);
        assert forall|t: int| 0 <= t < out.len() implies (#[trigger] out[t]).wf() && (t == c
            ==> out[t].value() == crate::theory::fractions::q_sub(
            row[t].value(),
            crate::theory::fractions::q_mul(pivot[t].value(), p.value()),
        )) by {
            assert(row[t].wf());
            assert(pivot[t].wf());
            if t < c {
                assert(out[t] == row[t]);
            } else {
                assert(crate::reduction::reduced_entry(row[t], pivot[t], p) == Some(out[t]));
                lemma_exact_arithmetic(pivot[t], p);
                let m = pivot[t].mul_spec(p).unwrap();
                lemma_exact_arithmetic(row[t], m);
            }
        }
    }
}

/// The reduction keeps what holds while a grid is being reduced, up to a cursor
/// at the last row or the last column; the cursor is returned.
pub proof fn lemma_reduce_reducing(
    p: Progress<Rational>,
    i: int,
    c: int,
    rows: int,
    cols: int,
    separator: Option<usize>,
) -> (end: (int, int))
    requires
        reducing(p.grid, i, c, rows, cols),
    ensures
        reduce(p, i, c, cols, separator) matches Some(q) ==> reducing(
            q.grid,
            end.0,
            end.1,
            rows,
            cols,
        ) && (end.0 == rows || end.1 == cols),
    decreases cols - c,
{
    if c < cols && i < rows {
        lemma_select_zero(p.grid, c, i + 1, i);
        if let Some(j) = pivot_row(p.grid, c, i) {
            if p.grid[j][c] == Rational::zero_spec() {
                assert(zero_below(p.grid, i, c + 1)) by {
                    assert forall|r: int| i <= r < p.grid.len() implies zero_before(
                        #[trigger] p.grid[r],
                        c + 1,
                    ) by {
                        assert(zero_before(p.grid[r], c));
                        assert(p.grid[r][c] == Rational::zero_spec());
                        assert forall|k: int| 0 <= k < c + 1 && k < p.grid[r].len() implies (
                        #[trigger] p.grid[r][k]) == Rational::zero_spec() by {
                            if k < c {
                                assert(p.grid[r][k] == Rational::zero_spec());
                            }
                        }
                    }
                }
                assert(reducing(p.grid, i, c + 1, rows, cols));
                lemma_reduce_reducing(p, i, c + 1, rows, cols, separator)
            } else {
                lemma_pivot_step_reducing(p, i, j, c, rows, cols, separator);
                if let Some(next) = pivot_step(p, i, j, c, separator) {
                    lemma_reduce_reducing(next, i + 1, c + 1, rows, cols, separator)
                } else {
                    (i, c)
                }
            }
        } else {
            (i, c)
        }
    } else {
        (i, c)
    }
}

/// A grid whose reduction has come to the last row or the last column is in
/// reduced row echelon form.
pub proof fn lemma_reducing_done(g: Seq<Seq<Rational>>, i: int, c: int, rows: int, cols: int)
    requires
        rows > 0,
        reducing(g, i, c, rows, cols),
        i == rows || c == cols,
    ensures
        is_reduced(g),
{
    assert(g[0].len() == cols);
    assert forall|r: int| i <= r < rows implies lead(#[trigger] g[r]) == cols by {
        assert(c == cols);
        assert(g[r].len() == cols);
        assert(zero_before(g[r], cols));
        lemma_lead_at(g[r], cols, 0);
    }
    assert forall|r: int| 0 <= r < g.len() && lead(#[trigger] g[r]) < g[0].len() implies g[r][lead(
        g[r],
    )] == Rational::one_spec() by {
        assert(r < i);
    }
    assert forall|r: int, s: int|
        0 <= r < s < g.len() && lead(#[trigger] g[s]) < g[0].len() implies lead(
        #[trigger] g[r],
    ) < lead(g[s]) by {
        assert(s < i);
    }
    assert forall|r: int, s: int|
        0 <= r < g.len() && 0 <= s < g.len() && r != s && lead(#[trigger] g[r])
            < g[0].len() implies (#[trigger] g[s])[lead(g[r])] == Rational::zero_spec() by {
        assert(r < i);
    }
}

/// What the reduction of a matrix of exact fractions gives is in reduced row
/// echelon form: every pivot is one, the pivots step strictly to the right going
/// down with the zero rows at the bottom, and a pivot is the only entry of its
/// column that is not zero. Reducing it once more changes nothing.
pub proof fn lemma_echelon_is_reduced(g: Seq<Seq<Rational>>, separator: Option<usize>)
    requires
        rectangular(g),
        !is_empty_grid(g),
        exact_grid(g),
        echelon_of(g, separator) is Some,
    ensures
        is_reduced(echelon_of(g, separator)->Some_0.grid),
        forall|other: Option<usize>|
            #[trigger] echelon_of(echelon_of(g, separator)->Some_0.grid, other) == Some(
                Progress {
                    grid: echelon_of(g, separator)->Some_0.grid,
                    steps: seq![matrix_latex(echelon_of(g, separator)->Some_0.grid, other)],
                },
            ),
{
    let rows = g.len() as int;
    let cols = g[0].len() as int;
    assert(has_shape(g, rows, cols)) by {
        assert forall|r: int| 0 <= r < rows implies (#[trigger] g[r]).len() == cols by {
            assert(g[r].len() == g[0].len());
        }
    }
    let start = Progress { grid: g, steps: seq![matrix_latex(g, separator)] };
    assert(reducing(g, 0, 0, rows, cols));
    let end = lemma_reduce_reducing(start, 0, 0, rows, cols, separator);
    let result = echelon_of(g, separator)->Some_0.grid;
    lemma_reducing_done(result, end.0, end.1, rows, cols);
    assert(result[0].len() == cols);
    assert forall|other: Option<usize>| #[trigger] echelon_of(result, other) == Some(
        Progress { grid: result, steps: seq![matrix_latex(result, other)] },
    ) by {
        lemma_echelon_of_reduced(result, other);
    }
}

} // verus!

//! The inverse that the calculator finds is an inverse, and for a singular
//! matrix it finds none.

use crate::theory::field::{
    lemma_add_zero, lemma_cancel, lemma_constants_ok, lemma_div_mul, lemma_mul_commutes,
    lemma_mul_one, lemma_q_closed, q_ok, q_one, q_zero,
};
use crate::theory::fractions::{q_add, q_div, q_mul, q_sub};
use crate::theory::linear::{
    all_ok, differences, lemma_div_is_mul, lemma_mul_difference, lemma_mul_rotate,
    lemma_q_sum_congruence, lemma_q_sum_differences, lemma_q_sum_scaled, q_sum, scaled,
};
use crate::grid::{
    dot, grid_mul, height, identity_grid, is_empty_grid, joined, left_part, lemma_grid_from,
    matrix_eq, product_cell, rectangular, right_part, width,
};
use crate::theory::linear::{
    all_ok2, lemma_left_inverse_is_right_inverse, lemma_q_sum_of_one_term,
    lemma_q_sum_two_changed, lemma_qm_one, qm_mul, qm_one, qm_same, qm_terms,
};
use crate::rationals::{lemma_exact_arithmetic, lemma_exact_constants, Rational};
use crate::reduction::{echelon_of, inverse_of};
use crate::reduction::{
    eliminate_from, has_shape, pivot_row, pivot_step, reduce, reduce_from, reduced_entry,
    scale_from, select_from, swapped, Progress,
};
use crate::traits::{CheckedOps, MatrixNumber};
use vstd::prelude::*;

verus! {

/// Every entry of the row is a fraction in lowest terms.
pub open spec fn exact_row(row: Seq<Rational>) -> bool {
    forall|k: int| 0 <= k < row.len() ==> (#[trigger] row[k]).wf()
}

/// Every entry of the grid is a fraction in lowest terms.
pub open spec fn exact_grid(g: Seq<Seq<Rational>>) -> bool {
    forall|r: int| 0 <= r < g.len() ==> exact_row(#[trigger] g[r])
}

/// The products of the right half of a row of `2 n` entries with column `j` of `a`.
pub open spec fn right_terms(row: Seq<Rational>, a: Seq<Seq<Rational>>, j: int, n: int) -> spec_fn(
    int,
) -> (int, int) {
    |k: int| q_mul(row[n + k].value(), a[k][j].value())
}

/// The entry at `j` of the right half of a row, taken as a row vector, times `a`.
pub open spec fn right_times(row: Seq<Rational>, a: Seq<Seq<Rational>>, j: int, n: int) -> (
    int,
    int,
) {
    q_sum(right_terms(row, a, j, n), n as nat)
}

/// The left half of the row is its right half times `a`.
pub open spec fn row_tracks(row: Seq<Rational>, a: Seq<Seq<Rational>>, n: int) -> bool {
    forall|j: int| 0 <= j < n ==> (#[trigger] row[j]).value() == right_times(row, a, j, n)
}

/// In every row the left half is the right half times `a`.
pub open spec fn grid_tracks(g: Seq<Seq<Rational>>, a: Seq<Seq<Rational>>, n: int) -> bool {
    forall|r: int| 0 <= r < g.len() ==> row_tracks(#[trigger] g[r], a, n)
}

/// The row is zero before column `c`.
pub open spec fn zero_before(row: Seq<Rational>, c: int) -> bool {
    forall|k: int| 0 <= k < c && k < row.len() ==> #[trigger] row[k] == Rational::zero_spec()
}

/// The rows from `i` on are zero before column `c`.
pub open spec fn zero_below(g: Seq<Seq<Rational>>, i: int, c: int) -> bool {
    forall|r: int| i <= r < g.len() ==> zero_before(#[trigger] g[r], c)
}

/// What dividing a row from column `k0` on leaves: the entries before `k0` as they
/// were, the others divided.
pub proof fn lemma_scale_entries<T: MatrixNumber>(row: Seq<T>, d: T, k0: int)
    requires
        0 <= k0,
    ensures
        scale_from(row, d, k0) matches Some(out) ==> {
            &&& out.len() == row.len()
            &&& forall|t: int| 0 <= t < k0 && t < row.len() ==> #[trigger] out[t] == row[t]
            &&& forall|t: int|
                k0 <= t < row.len() ==> row[t].div_spec(d) == Some(#[trigger] out[t])
        },
    decreases row.len() - k0,
{
    if k0 < row.len() {
        if let Some(v) = row[k0].div_spec(d) {
            let next = row.update(k0, v);
            lemma_scale_entries(next, d, k0 + 1);
            if let Some(out) = scale_from(row, d, k0) {
                assert forall|t: int| k0 <= t < row.len() implies row[t].div_spec(d) == Some(
                    #[trigger] out[t],
                ) by {
                    if t == k0 {
                        assert(out[k0] == next[k0]);
                    } else {
                        assert(next[t] == row[t]);
                    }
                }
                assert forall|t: int| 0 <= t < k0 && t < row.len() implies #[trigger] out[t]
                    == row[t] by {
                    assert(out[t] == next[t]);
                }
            }
        }
    }
}

/// What subtracting a multiple of the pivot row from column `k0` on leaves: the
/// entries before `k0` as they were, the others reduced.
pub proof fn lemma_reduce_entries<T: MatrixNumber>(row: Seq<T>, pivot: Seq<T>, p: T, k0: int)
    requires
        0 <= k0,
    ensures
        reduce_from(row, pivot, p, k0) matches Some(out) ==> {
            &&& out.len() == row.len()
            &&& forall|t: int| 0 <= t < k0 && t < row.len() ==> #[trigger] out[t] == row[t]
            &&& forall|t: int|
                k0 <= t < row.len() ==> reduced_entry(row[t], pivot[t], p) == Some(
                    #[trigger] out[t],
                )
        },
    decreases row.len() - k0,
{
    if k0 < row.len() {
        if let Some(v) = reduced_entry(row[k0], pivot[k0], p) {
            let next = row.update(k0, v);
            lemma_reduce_entries(next, pivot, p, k0 + 1);
            if let Some(out) = reduce_from(row, pivot, p, k0) {
                assert forall|t: int| k0 <= t < row.len() implies reduced_entry(
                    row[t],
                    pivot[t],
                    p,
                ) == Some(#[trigger] out[t]) by {
                    if t == k0 {
                        assert(out[k0] == next[k0]);
                    } else {
                        assert(next[t] == row[t]);
                    }
                }
                assert forall|t: int| 0 <= t < k0 && t < row.len() implies #[trigger] out[t]
                    == row[t] by {
                    assert(out[t] == next[t]);
                }
            }
        }
    }
}

/// Row `t` with the multiple of the pivot row `i` subtracted that clears its entry
/// in column `c`.
pub open spec fn cleared_row<T: MatrixNumber>(g: Seq<Seq<T>>, i: int, c: int, t: int) -> Option<
    Seq<T>,
> {
    match g[t][c].div_spec(g[i][c]) {
        None => None,
        Some(p) => reduce_from(g[t], g[i], p, c),
    }
}

/// What clearing a column leaves of each row: the pivot row, the rows already
/// passed and the rows that are zero in the column as they were; every other row
/// with the fitting multiple of the pivot row subtracted.
pub proof fn lemma_eliminate_rows<T: MatrixNumber>(
    g: Seq<Seq<T>>,
    i: int,
    c: int,
    r0: int,
    ops: Seq<Seq<char>>,
)
    requires
        0 <= r0,
        0 <= i < g.len(),
    ensures
        eliminate_from(g, i, c, r0, ops) matches Some(out) ==> {
            &&& out.0.len() == g.len()
            &&& forall|t: int|
                0 <= t < g.len() && (t == i || t < r0 || g[t][c] == T::zero_spec())
                    ==> #[trigger] out.0[t] == g[t]
            &&& forall|t: int|
                r0 <= t < g.len() && t != i && g[t][c] != T::zero_spec() ==> cleared_row(
                    g,
                    i,
                    c,
                    t,
                ) == Some(#[trigger] out.0[t])
        },
    decreases g.len() - r0,
{
    if r0 < g.len() {
        if let Some(out) = eliminate_from(g, i, c, r0, ops) {
            if r0 == i || g[r0][c] == T::zero_spec() {
                lemma_eliminate_rows(g, i, c, r0 + 1, ops);
                let inner = eliminate_from(g, i, c, r0 + 1, ops)->Some_0;
                assert(inner == out);
                assert forall|t: int|
                    0 <= t < g.len() && (t == i || t < r0 || g[t][c]
                        == T::zero_spec()) implies #[trigger] out.0[t] == g[t] by {
                    assert(inner.0[t] == g[t]);
                }
                assert forall|t: int|
                    r0 <= t < g.len() && t != i && g[t][c] != T::zero_spec() implies cleared_row(
                    g,
                    i,
                    c,
                    t,
                ) == Some(#[trigger] out.0[t]) by {
                    assert(cleared_row(g, i, c, t) == Some(inner.0[t]));
                }
            } else {
                let p = g[r0][c].div_spec(g[i][c]).unwrap();
                let row = reduce_from(g[r0], g[i], p, c).unwrap();
                let next = g.update(r0, row);
                let label = crate::reduction::combination_label(
                    r0,
                    crate::reduction::coefficient_text(p).unwrap(),
                    i,
                );
                lemma_eliminate_rows(next, i, c, r0 + 1, ops.push(label));
                let inner = eliminate_from(next, i, c, r0 + 1, ops.push(label))->Some_0;
                assert(inner == out);
                assert(next[i] == g[i]);
                assert forall|t: int|
                    0 <= t < g.len() && (t == i || t < r0 || g[t][c]
                        == T::zero_spec()) implies #[trigger] out.0[t] == g[t] by {
                    assert(next[t] == g[t]);
                    assert(inner.0[t] == next[t]);
                }
                assert forall|t: int|
                    r0 <= t < g.len() && t != i && g[t][c] != T::zero_spec() implies cleared_row(
                    g,
                    i,
                    c,
                    t,
                ) == Some(#[trigger] out.0[t]) by {
                    if t == r0 {
                        assert(inner.0[r0] == next[r0]);
                    } else {
                        assert(next[t] == g[t]);
                        assert(cleared_row(next, i, c, t) == Some(inner.0[t]));
                    }
                }
            }
        }
    }
}

/// Where the chosen pivot is zero, the row at hand and all rows looked at are zero
/// in the column.
pub proof fn lemma_select_zero<T: MatrixNumber>(g: Seq<Seq<T>>, c: int, k: int, j: int)
    requires
        0 <= j < k,
    ensures
        select_from(g, c, k, j) matches Some(chosen) ==> (chosen == j || k <= chosen < g.len())
            && (g[chosen][c] == T::zero_spec() ==> g[j][c] == T::zero_spec() && forall|t: int|
            k <= t < g.len() ==> (#[trigger] g[t])[c] == T::zero_spec()),
    decreases g.len() - k,
{
    if k < g.len() {
        lemma_select_zero(g, c, k + 1, j);
        lemma_select_zero(g, c, k + 1, k);
    }
}

/// The products of a row of `2 n` exact entries with a column of an exact grid are
/// fractions in lowest terms.
pub proof fn lemma_terms_ok(row: Seq<Rational>, a: Seq<Seq<Rational>>, j: int, n: int)
    requires
        exact_row(row),
        exact_grid(a),
        has_shape(a, n, n),
        row.len() == 2 * n,
        0 <= j < n,
    ensures
        all_ok(right_terms(row, a, j, n), n as nat),
{
    assert forall|k: int| 0 <= k < n implies q_ok(#[trigger] right_terms(row, a, j, n)(k)) by {
        assert(row[n + k].wf());
        assert(exact_row(a[k]));
        assert(a[k][j].wf());
        lemma_q_closed(row[n + k].value(), a[k][j].value());
    }
}

/// A row whose entries are those of `row` times `factor` keeps the relation
/// between its halves.
pub proof fn lemma_scaled_row_tracks(
    row: Seq<Rational>,
    out: Seq<Rational>,
    factor: (int, int),
    a: Seq<Seq<Rational>>,
    n: int,
)
    requires
        exact_row(row),
        exact_row(out),
        exact_grid(a),
        has_shape(a, n, n),
        row.len() == 2 * n,
        out.len() == 2 * n,
        q_ok(factor),
        row_tracks(row, a, n),
        forall|t: int| 0 <= t < 2 * n ==> (#[trigger] out[t]).value() == q_mul(
            row[t].value(),
            factor,
        ),
    ensures
        row_tracks(out, a, n),
{
    assert forall|j: int| 0 <= j < n implies (#[trigger] out[j]).value() == right_times(
        out,
        a,
        j,
        n,
    ) by {
        let f = right_terms(row, a, j, n);
        let g = right_terms(out, a, j, n);
        lemma_terms_ok(row, a, j, n);
        assert forall|k: int| 0 <= k < n implies #[trigger] g(k) == scaled(f, factor)(k) by {
            assert(out[n + k].value() == q_mul(row[n + k].value(), factor));
            assert(row[n + k].wf());
            assert(exact_row(a[k]));
            assert(a[k][j].wf());
            lemma_mul_rotate(row[n + k].value(), factor, a[k][j].value());
        }
        lemma_q_sum_congruence(g, scaled(f, factor), n as nat);
        lemma_q_sum_scaled(f, factor, n as nat);
        assert(row[j].value() == right_times(row, a, j, n));
    }
}

/// A row whose entries are those of `row` minus `factor` times those of `pivot`
/// keeps the relation between its halves, if both rows have it.
pub proof fn lemma_reduced_row_tracks(
    row: Seq<Rational>,
    pivot: Seq<Rational>,
    out: Seq<Rational>,
    factor: (int, int),
    a: Seq<Seq<Rational>>,
    n: int,
)
    requires
        exact_row(row),
        exact_row(pivot),
        exact_row(out),
        exact_grid(a),
        has_shape(a, n, n),
        row.len() == 2 * n,
        pivot.len() == 2 * n,
        out.len() == 2 * n,
        q_ok(factor),
        row_tracks(row, a, n),
        row_tracks(pivot, a, n),
        forall|t: int| 0 <= t < 2 * n ==> (#[trigger] out[t]).value() == q_sub(
            row[t].value(),
            q_mul(pivot[t].value(), factor),
        ),
    ensures
        row_tracks(out, a, n),
{
    assert forall|j: int| 0 <= j < n implies (#[trigger] out[j]).value() == right_times(
        out,
        a,
        j,
        n,
    ) by {
        let f = right_terms(row, a, j, n);
        let p = right_terms(pivot, a, j, n);
        let g = right_terms(out, a, j, n);
        lemma_terms_ok(row, a, j, n);
        lemma_terms_ok(pivot, a, j, n);
        let sp = scaled(p, factor);
        assert(all_ok(sp, n as nat)) by {
            assert forall|k: int| 0 <= k < n implies q_ok(#[trigger] sp(k)) by {
                assert(q_ok(p(k)));
                lemma_q_closed(p(k), factor);
            }
        }
        assert forall|k: int| 0 <= k < n implies #[trigger] g(k) == differences(f, sp)(k) by {
            let x = row[n + k].value();
            let y = pivot[n + k].value();
            let e = a[k][j].value();
            assert(out[n + k].value() == q_sub(x, q_mul(y, factor)));
            assert(row[n + k].wf());
            assert(pivot[n + k].wf());
            assert(exact_row(a[k]));
            assert(a[k][j].wf());
            lemma_q_closed(y, factor);
            lemma_mul_difference(x, q_mul(y, factor), e);
            lemma_mul_rotate(y, factor, e);
        }
        lemma_q_sum_congruence(g, differences(f, sp), n as nat);
        lemma_q_sum_differences(f, sp, n as nat);
        lemma_q_sum_scaled(p, factor, n as nat);
        assert(row[j].value() == right_times(row, a, j, n));
        assert(pivot[j].value() == right_times(pivot, a, j, n));
    }
}

/// Dividing a row that is zero before column `c` by a fraction that is not zero,
/// from column `c` on, keeps the relation between its halves, keeps the row
/// exact and zero before `c`, and divides every entry exactly.
pub proof fn lemma_scale_row(
    row: Seq<Rational>,
    d: Rational,
    c: int,
    a: Seq<Seq<Rational>>,
    n: int,
)
    requires
        exact_row(row),
        d.wf(),
        exact_grid(a),
        has_shape(a, n, n),
        row.len() == 2 * n,
        0 <= c,
        zero_before(row, c),
        row_tracks(row, a, n),
    ensures
        scale_from(row, d, c) matches Some(out) ==> {
            &&& out.len() == 2 * n
            &&& exact_row(out)
            &&& zero_before(out, c)
            &&& row_tracks(out, a, n)
            &&& d.value().0 != 0 || c >= 2 * n
            &&& forall|t: int|
                c <= t < 2 * n ==> (#[trigger] out[t]).value() == q_div(
                    row[t].value(),
                    d.value(),
                )
        },
{
    if let Some(out) = scale_from(row, d, c) {
        lemma_scale_entries(row, d, c);
        lemma_constants_ok();
        assert forall|t: int| c <= t < 2 * n implies (#[trigger] out[t]).wf() && out[t].value()
            == q_div(row[t].value(), d.value()) && d.value().0 != 0 by {
            assert(row[t].wf());
            assert(row[t].div_spec(d) == Some(out[t]));
            lemma_exact_arithmetic(row[t], d);
        }
        assert(exact_row(out)) by {
            assert forall|t: int| 0 <= t < out.len() implies (#[trigger] out[t]).wf() by {
                if t < c {
                    assert(out[t] == row[t]);
                    assert(row[t].wf());
                }
            }
        }
        assert(zero_before(out, c)) by {
            assert forall|t: int| 0 <= t < c && t < out.len() implies #[trigger] out[t]
                == Rational::zero_spec() by {
                assert(out[t] == row[t]);
            }
        }
        if c < 2 * n {
            assert(out[c].wf());
            let dv = d.value();
            lemma_q_closed(q_one(), dv);
            let inverse = q_div(q_one(), dv);
            assert forall|t: int| 0 <= t < 2 * n implies (#[trigger] out[t]).value() == q_mul(
                row[t].value(),
                inverse,
            ) by {
                assert(row[t].wf());
                if t < c {
                    assert(out[t] == row[t]);
                    assert(row[t] == Rational::zero_spec());
                    lemma_exact_arithmetic(row[t], d);
                    lemma_mul_one(inverse);
                } else {
                    lemma_div_is_mul(row[t].value(), dv);
                }
            }
            lemma_scaled_row_tracks(row, out, inverse, a, n);
        } else {
            assert(out =~= row);
        }
    }
}

/// Subtracting a multiple of a pivot row that is zero before column `c` from a
/// row, from column `c` on, keeps the relation between the halves and keeps the
/// row exact; the entries before `c` stay, the others are reduced exactly.
pub proof fn lemma_reduce_row(
    row: Seq<Rational>,
    pivot: Seq<Rational>,
    p: Rational,
    c: int,
    a: Seq<Seq<Rational>>,
    n: int,
)
    requires
        exact_row(row),
        exact_row(pivot),
        p.wf(),
        exact_grid(a),
        has_shape(a, n, n),
        row.len() == 2 * n,
        pivot.len() == 2 * n,
        0 <= c,
        zero_before(pivot, c),
        row_tracks(row, a, n),
        row_tracks(pivot, a, n),
    ensures
        reduce_from(row, pivot, p, c) matches Some(out) ==> {
            &&& out.len() == 2 * n
            &&& exact_row(out)
            &&& row_tracks(out, a, n)
            &&& forall|t: int| 0 <= t < c && t < 2 * n ==> #[trigger] out[t] == row[t]
            &&& forall|t: int|
                c <= t < 2 * n ==> (#[trigger] out[t]).value() == q_sub(
                    row[t].value(),
                    q_mul(pivot[t].value(), p.value()),
                )
        },
{
    if let Some(out) = reduce_from(row, pivot, p, c) {
        lemma_reduce_entries(row, pivot, p, c);
        lemma_constants_ok();
        assert forall|t: int| 0 <= t < 2 * n implies (#[trigger] out[t]).wf() && out[t].value()
            == q_sub(row[t].value(), q_mul(pivot[t].value(), p.value())) by {
            assert(row[t].wf());
            assert(pivot[t].wf());
            if t < c {
                assert(out[t] == row[t]);
                assert(pivot[t] == Rational::zero_spec());
                lemma_exact_arithmetic(pivot[t], p);
                lemma_mul_one(p.value());
                lemma_add_zero(row[t].value());
            } else {
                assert(reduced_entry(row[t], pivot[t], p) == Some(out[t]));
                lemma_exact_arithmetic(pivot[t], p);
                let m = pivot[t].mul_spec(p).unwrap();
                lemma_exact_arithmetic(row[t], m);
            }
        }
        lemma_reduced_row_tracks(row, pivot, out, p.value(), a, n);
    }
}

/// What holds of the grid while the matrix `a` of side `n` is being inverted, with
/// the cursor at row `i` and column `c`: the grid has `n` rows of `2 n` exact
/// entries, in every row the left half is the right half times `a`, and the rows
/// from `i` on are zero before column `c`.
pub open spec fn inverting(
    g: Seq<Seq<Rational>>,
    a: Seq<Seq<Rational>>,
    n: int,
    i: int,
    c: int,
) -> bool {
    &&& has_shape(g, n, 2 * n)
    &&& exact_grid(g)
    &&& grid_tracks(g, a, n)
    &&& zero_below(g, i, c)
}

/// Exchanging two rows at or below the cursor keeps what holds while a matrix is
/// being inverted.
pub proof fn lemma_swap_inverting(
    g: Seq<Seq<Rational>>,
    a: Seq<Seq<Rational>>,
    n: int,
    i: int,
    j: int,
    c: int,
)
    requires
        inverting(g, a, n, i, c),
        0 <= i <= j < n,
    ensures
        inverting(swapped(g, i, j), a, n, i, c),
        swapped(g, i, j)[i] == g[j],
{
    let g1 = swapped(g, i, j);
    assert(g1.len() == n);
    assert(g1[i] == g[j]);
    assert(g1[j] == g[i]);
    assert forall|r: int| 0 <= r < n implies (#[trigger] g1[r]).len() == 2 * n && exact_row(
        g1[r],
    ) && row_tracks(g1[r], a, n) && (r >= i ==> zero_before(g1[r], c)) by {
        let source = if r == i {
            j
        } else if r == j {
            i
        } else {
            r
        };
        assert(g1[r] == g[source]);
        assert(g[source].len() == 2 * n);
        assert(exact_row(g[source]));
        assert(row_tracks(g[source], a, n));
        if r >= i {
            assert(zero_before(g[source], c));
        }
    }
}

/// The grid after the pivot row `i` has been divided by its entry in column `c`,
/// unless that entry was one already.
pub open spec fn pivot_scaled(g: Seq<Seq<Rational>>, i: int, c: int) -> Option<
    Seq<Seq<Rational>>,
> {
    if g[i][c] == Rational::one_spec() {
        Some(g)
    } else {
        match scale_from(g[i], g[i][c], c) {
            None => None,
            Some(row) => Some(g.update(i, row)),
        }
    }
}

/// Dividing the pivot row by a pivot that is not zero keeps what holds while a
/// matrix is being inverted, and makes the pivot one.
pub proof fn lemma_scale_inverting(
    g: Seq<Seq<Rational>>,
    a: Seq<Seq<Rational>>,
    n: int,
    i: int,
    c: int,
)
    requires
        exact_grid(a),
        has_shape(a, n, n),
        inverting(g, a, n, i, c),
        0 <= i < n,
        0 <= c < 2 * n,
        g[i][c] != Rational::zero_spec(),
    ensures
        pivot_scaled(g, i, c) matches Some(g2) ==> inverting(g2, a, n, i, c) && g2[i][c].value()
            == q_one(),
{
    if let Some(g2) = pivot_scaled(g, i, c) {
        let one = Rational::one_spec();
        let d = g[i][c];
        lemma_constants_ok();
        lemma_exact_constants();
        assert(g[i].len() == 2 * n);
        assert(exact_row(g[i]));
        assert(d.wf());
        assert(zero_before(g[i], c));
        assert(row_tracks(g[i], a, n));
        lemma_scale_row(g[i], d, c, a, n);
        lemma_exact_arithmetic(d, d);
        assert(g2.len() == n);
        assert(g2[i][c].value() == q_one()) by {
            if d != one {
                lemma_cancel(d.value());
            }
        }
        assert forall|r: int| 0 <= r < n implies (#[trigger] g2[r]).len() == 2 * n && exact_row(
            g2[r],
        ) && row_tracks(g2[r], a, n) && (r >= i ==> zero_before(g2[r], c)) by {
            if r != i || d == one {
                assert(g2[r] == g[r]);
                assert(g[r].len() == 2 * n);
                assert(exact_row(g[r]));
                assert(row_tracks(g[r], a, n));
                if r >= i {
                    assert(zero_before(g[r], c));
                }
            }
        }
    }
}

/// Clearing the column of a pivot that is one keeps what holds while a matrix is
/// being inverted, and moves the cursor to the next row and column.
pub proof fn lemma_eliminate_inverting(
    g2: Seq<Seq<Rational>>,
    a: Seq<Seq<Rational>>,
    n: int,
    i: int,
    c: int,
)
    requires
        exact_grid(a),
        has_shape(a, n, n),
        inverting(g2, a, n, i, c),
        0 <= i < n,
        0 <= c < 2 * n,
        g2[i][c].value() == q_one(),
    ensures
        eliminate_from(g2, i, c, 0, Seq::empty()) matches Some(out) ==> inverting(
            out.0,
            a,
            n,
            i + 1,
            c + 1,
        ),
{
    if let Some(out) = eliminate_from(g2, i, c, 0, Seq::empty()) {
        let g3 = out.0;
        let zero = Rational::zero_spec();
        lemma_constants_ok();
        lemma_exact_constants();
        lemma_eliminate_rows(g2, i, c, 0, Seq::empty());
        let pivot = g2[i];
        assert(pivot.len() == 2 * n);
        assert(exact_row(pivot));
        assert(pivot[c].wf());
        assert(zero_before(pivot, c));
        assert(row_tracks(pivot, a, n));
        assert forall|r: int| 0 <= r < n implies (#[trigger] g3[r]).len() == 2 * n && exact_row(
            g3[r],
        ) && row_tracks(g3[r], a, n) && (r >= i + 1 ==> zero_before(g3[r], c + 1)) by {
            let row = g2[r];
            assert(row.len() == 2 * n);
            assert(exact_row(row));
            assert(row_tracks(row, a, n));
            assert(row[c].wf());
            if r == i || row[c] == zero {
                assert(g3[r] == row);
                if r >= i + 1 {
                    assert(zero_before(row, c));
                    assert forall|k: int| 0 <= k < c + 1 && k < row.len() implies #[trigger] row[k]
                        == zero by {
                        if k < c {
                            assert(row[k] == zero);
                        }
                    }
                }
            } else {
                assert(cleared_row(g2, i, c, r) == Some(g3[r]));
                let factor = row[c].div_spec(pivot[c]).unwrap();
                lemma_exact_arithmetic(row[c], pivot[c]);
                lemma_reduce_row(row, pivot, factor, c, a, n);
                if r >= i + 1 {
                    assert(zero_before(row, c));
                    let x = row[c].value();
                    // The factor is x / 1 = x, and x - 1 * x = 0.
                    lemma_mul_one(x);
                    lemma_cancel(x);
                    assert(g3[r][c].value() == q_zero());
                    assert(exact_row(g3[r]));
                    assert(g3[r][c].wf());
                    lemma_exact_arithmetic(g3[r][c], zero);
                    assert forall|k: int| 0 <= k < c + 1 && k < g3[r].len() implies (
                    #[trigger] g3[r][k]) == zero by {
                        if k < c {
                            assert(g3[r][k] == row[k]);
                            assert(row[k] == zero);
                        }
                    }
                }
            }
        }
    }
}

/// One round with a pivot, step by step: the grid after the exchange, after the
/// division, and after the elimination.
pub proof fn lemma_pivot_step_grids(
    p: Progress<Rational>,
    i: int,
    j: int,
    c: int,
    separator: Option<usize>,
)
    requires
        0 <= i <= j < p.grid.len(),
    ensures
        pivot_step(p, i, j, c, separator) matches Some(q) ==> {
            let g1 = swapped(p.grid, i, j);
            &&& pivot_scaled(g1, i, c) matches Some(g2) && (eliminate_from(
                g2,
                i,
                c,
                0,
                Seq::empty(),
            ) matches Some(out) && out.0 == q.grid)
        },
{
    if i == j {
        assert(swapped(p.grid, i, j) =~= p.grid);
    }
}

/// One round with a pivot keeps what holds while a matrix is being inverted, and
/// moves the cursor to the next row and column.
pub proof fn lemma_pivot_step_inverting(
    p: Progress<Rational>,
    a: Seq<Seq<Rational>>,
    n: int,
    i: int,
    j: int,
    c: int,
    separator: Option<usize>,
)
    requires
        exact_grid(a),
        has_shape(a, n, n),
        inverting(p.grid, a, n, i, c),
        0 <= i <= j < n,
        0 <= c < 2 * n,
        p.grid[j][c] != Rational::zero_spec(),
    ensures
        pivot_step(p, i, j, c, separator) matches Some(q) ==> inverting(
            q.grid,
            a,
            n,
            i + 1,
            c + 1,
        ),
{
    if let Some(q) = pivot_step(p, i, j, c, separator) {
        lemma_pivot_step_grids(p, i, j, c, separator);
        let g1 = swapped(p.grid, i, j);
        lemma_swap_inverting(p.grid, a, n, i, j, c);
        lemma_scale_inverting(g1, a, n, i, c);
        let g2 = pivot_scaled(g1, i, c)->Some_0;
        lemma_eliminate_inverting(g2, a, n, i, c);
    }
}

/// Clearing a column is undone by a change of the matrix that undoes the grid:
/// the result is a matrix that undoes the grid after the clearing.
pub proof fn lemma_eliminate_undone(
    g: Seq<Seq<Rational>>,
    i: int,
    c: int,
    r0: int,
    ops: Seq<Seq<char>>,
    m: spec_fn(int, int) -> (int, int),
    n: int,
) -> (m2: spec_fn(int, int) -> (int, int))
    requires
        has_shape(g, n, 2 * n),
        exact_grid(g),
        0 <= i < n,
        0 <= c < 2 * n,
        0 <= r0,
        zero_before(g[i], c),
        undoes(m, g, n),
    ensures
        eliminate_from(g, i, c, r0, ops) matches Some(out) ==> undoes(m2, out.0, n),
    decreases g.len() - r0,
{
    if r0 < g.len() {
        if let Some(out) = eliminate_from(g, i, c, r0, ops) {
            if r0 == i || g[r0][c] == Rational::zero_spec() {
                lemma_eliminate_undone(g, i, c, r0 + 1, ops, m, n)
            } else {
                let p = g[r0][c].div_spec(g[i][c]).unwrap();
                let row = reduce_from(g[r0], g[i], p, c).unwrap();
                let next = g.update(r0, row);
                let label = crate::reduction::combination_label(
                    r0,
                    crate::reduction::coefficient_text(p).unwrap(),
                    i,
                );
                assert(g[r0].len() == 2 * n && g[i].len() == 2 * n);
                assert(exact_row(g[r0]) && exact_row(g[i]));
                assert(g[r0][c].wf() && g[i][c].wf());
                lemma_exact_arithmetic(g[r0][c], g[i][c]);
                lemma_reduce_values(g[r0], g[i], p, c, n);
                lemma_reduce_undone(g, row, m, i, r0, p.value(), n);
                assert(next[i] == g[i]);
                assert(has_shape(next, n, 2 * n) && exact_grid(next)) by {
                    assert forall|r: int| 0 <= r < n implies (#[trigger] next[r]).len() == 2 * n
                        && exact_row(next[r]) by {
                        if r != r0 {
                            assert(next[r] == g[r]);
                            assert(g[r].len() == 2 * n);
                            assert(exact_row(g[r]));
                        }
                    }
                }
                lemma_eliminate_undone(
                    next,
                    i,
                    c,
                    r0 + 1,
                    ops.push(label),
                    column_added(m, i, r0, p.value()),
                    n,
                )
            }
        } else {
            m
        }
    } else {
        m
    }
}

/// One round with a pivot is undone by a change of the matrix that undoes the
/// grid.
pub proof fn lemma_pivot_step_undone(
    p: Progress<Rational>,
    a: Seq<Seq<Rational>>,
    n: int,
    i: int,
    j: int,
    c: int,
    separator: Option<usize>,
    m: spec_fn(int, int) -> (int, int),
) -> (m2: spec_fn(int, int) -> (int, int))
    requires
        exact_grid(a),
        has_shape(a, n, n),
        inverting(p.grid, a, n, i, c),
        0 <= i <= j < n,
        0 <= c < 2 * n,
        p.grid[j][c] != Rational::zero_spec(),
        undoes(m, p.grid, n),
    ensures
        pivot_step(p, i, j, c, separator) matches Some(q) ==> undoes(m2, q.grid, n),
{
    if let Some(q) = pivot_step(p, i, j, c, separator) {
        lemma_pivot_step_grids(p, i, j, c, separator);
        let g = p.grid;
        let g1 = swapped(g, i, j);
        lemma_swap_inverting(g, a, n, i, j, c);
        lemma_swap_undone(g, m, i, j, n);
        let m1 = columns_swapped(m, i, j);
        lemma_scale_inverting(g1, a, n, i, c);
        let g2 = pivot_scaled(g1, i, c)->Some_0;
        let d = g1[i][c];
        assert(g1[i].len() == 2 * n);
        assert(exact_row(g1[i]));
        assert(zero_before(g1[i], c));
        assert(d.wf());
        let m_scaled = if d == Rational::one_spec() {
            m1
        } else {
            lemma_scale_values(g1[i], d, c, n);
            let row = scale_from(g1[i], d, c)->Some_0;
            lemma_scale_undone(g1, row, m1, i, d.value(), n);
            column_scaled(m1, i, d.value())
        };
        assert(undoes(m_scaled, g2, n));
        assert(zero_before(g2[i], c));
        lemma_eliminate_undone(g2, i, c, 0, Seq::empty(), m_scaled, n)
    } else {
        m
    }
}

/// The reduction is undone by a change of the matrix that undoes the grid.
pub proof fn lemma_reduce_undone_throughout(
    p: Progress<Rational>,
    a: Seq<Seq<Rational>>,
    n: int,
    i: int,
    c: int,
    separator: Option<usize>,
    m: spec_fn(int, int) -> (int, int),
) -> (m2: spec_fn(int, int) -> (int, int))
    requires
        exact_grid(a),
        has_shape(a, n, n),
        inverting(p.grid, a, n, i, c),
        0 <= i,
        0 <= c,
        undoes(m, p.grid, n),
    ensures
        reduce(p, i, c, 2 * n, separator) matches Some(q) ==> undoes(m2, q.grid, n),
    decreases 2 * n - c,
{
    if c < 2 * n && i < n {
        lemma_select_zero(p.grid, c, i + 1, i);
        if let Some(j) = pivot_row(p.grid, c, i) {
            if p.grid[j][c] == Rational::zero_spec() {
                assert(zero_below(p.grid, i, c + 1)) by {
                    assert forall|r: int| i <= r < p.grid.len() implies zero_before(
                        #[trigger] p.grid[r],
                        c + 1,
                    ) by {
                        assert(zero_before(p.grid[r], c));
                        assert(p.grid[r][c] == Rational::zero_spec());
                        assert forall|k: int| 0 <= k < c + 1 && k < p.grid[r].len() implies (
                        #[trigger] p.grid[r][k]) == Rational::zero_spec() by {
                            if k < c {
                                assert(p.grid[r][k] == Rational::zero_spec());
                            }
                        }
                    }
                }
                lemma_reduce_undone_throughout(p, a, n, i, c + 1, separator, m)
            } else {
                lemma_pivot_step_inverting(p, a, n, i, j, c, separator);
                let m1 = lemma_pivot_step_undone(p, a, n, i, j, c, separator, m);
                if let Some(next) = pivot_step(p, i, j, c, separator) {
                    lemma_reduce_undone_throughout(next, a, n, i + 1, c + 1, separator, m1)
                } else {
                    m
                }
            }
        } else {
            m
        }
    } else {
        m
    }
}

/// The reduction keeps what holds while a matrix is being inverted.
pub proof fn lemma_reduce_inverting(
    p: Progress<Rational>,
    a: Seq<Seq<Rational>>,
    n: int,
    i: int,
    c: int,
    separator: Option<usize>,
)
    requires
        exact_grid(a),
        has_shape(a, n, n),
        inverting(p.grid, a, n, i, c),
        0 <= i,
        0 <= c,
    ensures
        reduce(p, i, c, 2 * n, separator) matches Some(q) ==> has_shape(q.grid, n, 2 * n)
            && exact_grid(q.grid) && grid_tracks(q.grid, a, n),
    decreases 2 * n - c,
{
    if c < 2 * n && i < n {
        lemma_select_zero(p.grid, c, i + 1, i);
        if let Some(j) = pivot_row(p.grid, c, i) {
            if p.grid[j][c] == Rational::zero_spec() {
                assert(zero_below(p.grid, i, c + 1)) by {
                    assert forall|r: int| i <= r < p.grid.len() implies zero_before(
                        #[trigger] p.grid[r],
                        c + 1,
                    ) by {
                        assert(zero_before(p.grid[r], c));
                        assert(p.grid[r][c] == Rational::zero_spec());
                        assert forall|k: int| 0 <= k < c + 1 && k < p.grid[r].len() implies (
                        #[trigger] p.grid[r][k]) == Rational::zero_spec() by {
                            if k < c {
                                assert(p.grid[r][k] == Rational::zero_spec());
                            }
                        }
                    }
                }
                lemma_reduce_inverting(p, a, n, i, c + 1, separator);
            } else {
                lemma_pivot_step_inverting(p, a, n, i, j, c, separator);
                if let Some(next) = pivot_step(p, i, j, c, separator) {
                    lemma_reduce_inverting(next, a, n, i + 1, c + 1, separator);
                }
            }
        }
    }
}

/// The products of row `r` of `x` with column `j` of `y`.
pub open spec fn product_terms(x: Seq<Seq<Rational>>, y: Seq<Seq<Rational>>, r: int, j: int) -> spec_fn(
    int,
) -> (int, int) {
    |k: int| q_mul(x[r][k].value(), y[k][j].value())
}

/// The exact entry at `(r, j)` of the product of two grids of side `n`.
pub open spec fn product_value(
    x: Seq<Seq<Rational>>,
    y: Seq<Seq<Rational>>,
    r: int,
    j: int,
    n: int,
) -> (int, int) {
    q_sum(product_terms(x, y, r, j), n as nat)
}

/// The exact entry at `(r, j)` of the identity matrix.
pub open spec fn identity_value(r: int, j: int) -> (int, int) {
    if r == j {
        q_one()
    } else {
        q_zero()
    }
}

/// A partial sum of products that exists is the exact sum of the exact products.
pub proof fn lemma_dot_value(
    x: Seq<Seq<Rational>>,
    y: Seq<Seq<Rational>>,
    i: int,
    j: int,
    k: nat,
    n: int,
)
    requires
        exact_grid(x),
        exact_grid(y),
        has_shape(x, n, n),
        has_shape(y, n, n),
        0 <= i < n,
        0 <= j < n,
        k <= n,
    ensures
        dot(x, y, i, j, k) matches Some(acc) ==> acc.wf() && acc.value() == q_sum(
            product_terms(x, y, i, j),
            k,
        ),
    decreases k,
{
    lemma_exact_constants();
    if k > 0 {
        lemma_dot_value(x, y, i, j, (k - 1) as nat, n);
        if let Some(acc) = dot(x, y, i, j, (k - 1) as nat) {
            assert(exact_row(x[i]));
            assert(exact_row(y[k - 1]));
            assert(x[i][k - 1].wf());
            assert(y[k - 1][j].wf());
            lemma_exact_arithmetic(x[i][k - 1], y[k - 1][j]);
            if let Some(p) = x[i][k - 1].mul_spec(y[k - 1][j]) {
                lemma_exact_arithmetic(p, acc);
                crate::theory::field::lemma_add_commutes(p.value(), acc.value());
            }
        }
    }
}

/// The grid that the inversion of an exact square matrix `a` starts with, the
/// matrix with the identity to its right, has what holds while a matrix is being
/// inverted, and the identity undoes it.
pub proof fn lemma_inversion_starts(a: Seq<Seq<Rational>>)
    requires
        rectangular(a),
        exact_grid(a),
        !is_empty_grid(a),
        height(a) == width(a),
    ensures
        ({
            let n = height(a) as int;
            let augmented = joined(a, identity_grid::<Rational>(n as nat));
            &&& has_shape(a, n, n)
            &&& augmented.len() == n
            &&& augmented[0].len() == 2 * n
            &&& inverting(augmented, a, n, 0, 0)
            &&& undoes(qm_one(), augmented, n)
        }),
{
    let n = height(a) as int;
    let identity = identity_grid::<Rational>(n as nat);
    let zero = Rational::zero_spec();
    let one = Rational::one_spec();
    lemma_exact_constants();
    lemma_constants_ok();
    lemma_grid_from(
        n as nat,
        n as nat,
        |i: int, j: int|
            if i == j {
                one
            } else {
                zero
            },
    );
    assert(has_shape(a, n, n)) by {
        assert forall|r: int| 0 <= r < n implies (#[trigger] a[r]).len() == n by {
            assert(a[r].len() == a[0].len());
        }
    }
    let augmented = joined(a, identity);
    assert(augmented.len() == n);
    assert forall|r: int| 0 <= r < n implies (#[trigger] augmented[r]).len() == 2 * n
        && exact_row(augmented[r]) && row_tracks(augmented[r], a, n) by {
        assert(a[r].len() == n);
        assert(identity[r].len() == n);
        assert(augmented[r] == a[r] + identity[r]);
        assert(exact_row(a[r]));
        assert forall|k: int| 0 <= k < 2 * n implies (#[trigger] augmented[r][k]).wf() by {
            if k < n {
                assert(augmented[r][k] == a[r][k]);
                assert(a[r][k].wf());
            } else {
                assert(augmented[r][k] == identity[r][k - n]);
            }
        }
        assert forall|j: int| 0 <= j < n implies (#[trigger] augmented[r][j]).value()
            == right_times(augmented[r], a, j, n) by {
            let f = right_terms(augmented[r], a, j, n);
            assert(augmented[r][j] == a[r][j]);
            assert(a[r][j].wf());
            assert forall|k: int| 0 <= k < n implies #[trigger] f(k) == (if k == r {
                a[r][j].value()
            } else {
                q_zero()
            }) by {
                assert(augmented[r][n + k] == identity[r][k]);
                assert(exact_row(a[k]));
                assert(a[k][j].wf());
                lemma_mul_one(a[k][j].value());
            }
            lemma_q_sum_of_one_term(f, r, n as nat);
        }
    }
    assert(inverting(augmented, a, n, 0, 0));
    assert(augmented[0].len() == 2 * n);
    // The right half is the identity, and the identity times itself is itself.
    let right = right_half(augmented, n);
    assert(qm_same(right, qm_one(), n as nat)) by {
        assert forall|k: int, b: int| 0 <= k < n && 0 <= b < n implies #[trigger] right(k, b)
            == qm_one()(k, b) by {
            assert(a[k].len() == n);
            assert(augmented[k] == a[k] + identity[k]);
            assert(augmented[k][n + b] == identity[k][b]);
        }
    }
    assert(all_ok2(qm_one(), n as nat, n as nat));
    lemma_qm_one(qm_one(), n as nat);
    assert(qm_same(qm_one(), qm_one(), n as nat));
    crate::theory::linear::lemma_qm_congruence(qm_one(), qm_one(), right, qm_one(), n as nat);
    assert forall|x: int, y: int| 0 <= x < n && 0 <= y < n implies #[trigger] qm_mul(
        qm_one(),
        right,
        n as nat,
    )(x, y) == qm_one()(x, y) by {
        assert(qm_mul(qm_one(), right, n as nat)(x, y) == qm_mul(qm_one(), qm_one(), n as nat)(
            x,
            y,
        ));
        assert(qm_mul(qm_one(), qm_one(), n as nat)(x, y) == qm_one()(x, y));
    }
}

/// A grid of side `n` whose checked product entries exist and have the exact
/// values of the identity is the identity.
pub proof fn lemma_product_is_identity(x: Seq<Seq<Rational>>, y: Seq<Seq<Rational>>, n: int)
    requires
        n > 0,
        exact_grid(x),
        exact_grid(y),
        has_shape(x, n, n),
        has_shape(y, n, n),
        forall|r: int, j: int|
            0 <= r < n && 0 <= j < n ==> #[trigger] product_value(x, y, r, j, n) == identity_value(
                r,
                j,
            ),
    ensures
        grid_mul(x, y) matches Ok(w) ==> w == identity_grid::<Rational>(n as nat),
{
    if let Ok(w) = grid_mul(x, y) {
        let identity = identity_grid::<Rational>(n as nat);
        let zero = Rational::zero_spec();
        let one = Rational::one_spec();
        lemma_exact_constants();
        lemma_grid_from(
            n as nat,
            n as nat,
            |i: int, j: int|
                if i == j {
                    one
                } else {
                    zero
                },
        );
        assert(x[0].len() == n && y[0].len() == n);
        lemma_grid_from(n as nat, n as nat, |i: int, j: int| product_cell(x, y, i, j).unwrap());
        assert forall|r: int| 0 <= r < n implies #[trigger] w[r] == identity[r] by {
            assert forall|j: int| 0 <= j < n implies w[r][j] == identity[r][j] by {
                lemma_dot_value(x, y, r, j, n as nat, n);
                assert(product_cell(x, y, r, j).is_some());
                assert(w[r][j] == product_cell(x, y, r, j).unwrap());
                assert(w[r][j].value() == product_value(x, y, r, j, n));
                lemma_exact_arithmetic(w[r][j], identity[r][j]);
            }
            assert(w[r].len() == n);
            assert(identity[r].len() == n);
            assert(w[r] =~= identity[r]);
        }
        assert(w =~= identity);
    }
}

/// The inverse is an inverse on both sides: where the inversion of an exact
/// matrix gives a matrix, the product of the two, in either order, is the
/// identity, entry by entry and exactly; and a checked product of the two that
/// exists is the identity matrix.
pub proof fn lemma_inverse_is_inverse(a: Seq<Seq<Rational>>)
    requires
        rectangular(a),
        exact_grid(a),
        inverse_of(a) is Ok,
    ensures
        ({
            let inverse = inverse_of(a)->Ok_0.grid;
            let n = height(a) as int;
            &&& has_shape(inverse, n, n)
            &&& exact_grid(inverse)
            &&& forall|r: int, j: int|
                0 <= r < n && 0 <= j < n ==> #[trigger] product_value(inverse, a, r, j, n)
                    == identity_value(r, j)
            &&& forall|r: int, j: int|
                0 <= r < n && 0 <= j < n ==> #[trigger] product_value(a, inverse, r, j, n)
                    == identity_value(r, j)
            &&& grid_mul(inverse, a) matches Ok(w) ==> w == identity_grid::<Rational>(n as nat)
            &&& grid_mul(a, inverse) matches Ok(w) ==> w == identity_grid::<Rational>(n as nat)
        }),
{
    let n = height(a) as int;
    let identity = identity_grid::<Rational>(n as nat);
    let zero = Rational::zero_spec();
    let one = Rational::one_spec();
    lemma_exact_constants();
    lemma_constants_ok();
    lemma_grid_from(
        n as nat,
        n as nat,
        |i: int, j: int|
            if i == j {
                one
            } else {
                zero
            },
    );
    lemma_inversion_starts(a);
    let augmented = joined(a, identity);
    let separator = Some(n as usize);
    let start = Progress {
        grid: augmented,
        steps: seq![crate::grid::matrix_latex(augmented, separator)],
    };
    lemma_reduce_inverting(start, a, n, 0, 0, separator);
    let undo = lemma_reduce_undone_throughout(start, a, n, 0, 0, separator, qm_one());
    let reduced = echelon_of(augmented, separator)->Some_0;
    let g = reduced.grid;
    let left = left_part(g, n);
    let inverse = right_part(g, n);
    assert(inverse_of(a)->Ok_0.grid == inverse);
    assert(matrix_eq(left, identity));
    assert(left == identity);
    assert forall|r: int| 0 <= r < n implies (#[trigger] inverse[r]).len() == n && exact_row(
        inverse[r],
    ) by {
        assert(g[r].len() == 2 * n);
        assert(exact_row(g[r]));
        assert forall|k: int| 0 <= k < n implies (#[trigger] inverse[r][k]).wf() by {
            assert(inverse[r][k] == g[r][n + k]);
            assert(g[r][n + k].wf());
        }
    }
    assert forall|r: int, j: int| 0 <= r < n && 0 <= j < n implies #[trigger] product_value(
        inverse,
        a,
        r,
        j,
        n,
    ) == identity_value(r, j) by {
        assert(g[r].len() == 2 * n);
        assert(row_tracks(g[r], a, n));
        assert(g[r][j].value() == right_times(g[r], a, j, n));
        assert(left[r][j] == g[r][j]);
        assert(identity[r][j] == (if r == j {
            one
        } else {
            zero
        }));
        assert forall|k: int| 0 <= k < n implies #[trigger] product_terms(inverse, a, r, j)(k)
            == right_terms(g[r], a, j, n)(k) by {
            assert(inverse[r][k] == g[r][n + k]);
        }
        lemma_q_sum_congruence(
            product_terms(inverse, a, r, j),
            right_terms(g[r], a, j, n),
            n as nat,
        );
    }
    // In exact entries: undo * right = 1 and right * a = 1, so a * right = 1.
    let right = right_half(g, n);
    let entries = exact_entries(a);
    lemma_right_half_ok(g, n);
    assert(all_ok2(entries, n as nat, n as nat)) by {
        assert forall|k: int, b: int| 0 <= k < n && 0 <= b < n implies q_ok(
            #[trigger] entries(k, b),
        ) by {
            assert(exact_row(a[k]));
            assert(a[k].len() == n);
            assert(a[k][b].wf());
        }
    }
    assert(qm_same(qm_mul(right, entries, n as nat), qm_one(), n as nat)) by {
        assert forall|r: int, j: int| 0 <= r < n && 0 <= j < n implies #[trigger] qm_mul(
            right,
            entries,
            n as nat,
        )(r, j) == qm_one()(r, j) by {
            assert forall|k: int| 0 <= k < n implies #[trigger] qm_terms(right, entries, r, j)(
                k,
            ) == product_terms(inverse, a, r, j)(k) by {
                assert(g[r].len() == 2 * n);
                assert(inverse[r][k] == g[r][n + k]);
            }
            lemma_q_sum_congruence(
                qm_terms(right, entries, r, j),
                product_terms(inverse, a, r, j),
                n as nat,
            );
            assert(product_value(inverse, a, r, j, n) == identity_value(r, j));
        }
    }
    lemma_left_inverse_is_right_inverse(undo, right, entries, n as nat);
    assert forall|r: int, j: int| 0 <= r < n && 0 <= j < n implies #[trigger] product_value(
        a,
        inverse,
        r,
        j,
        n,
    ) == identity_value(r, j) by {
        assert forall|k: int| 0 <= k < n implies #[trigger] product_terms(a, inverse, r, j)(k)
            == qm_terms(entries, right, r, j)(k) by {
            assert(g[k].len() == 2 * n);
            assert(inverse[k][j] == g[k][n + j]);
        }
        lemma_q_sum_congruence(
            product_terms(a, inverse, r, j),
            qm_terms(entries, right, r, j),
            n as nat,
        );
        assert(qm_mul(entries, right, n as nat)(r, j) == qm_one()(r, j));
    }
    lemma_product_is_identity(inverse, a, n);
    lemma_product_is_identity(a, inverse, n);
}

/// The exact entries of the right half of a grid of `2 n` columns.
pub open spec fn right_half(g: Seq<Seq<Rational>>, n: int) -> spec_fn(int, int) -> (int, int) {
    |k: int, b: int| g[k][n + b].value()
}

/// The exact entries of a grid.
pub open spec fn exact_entries(g: Seq<Seq<Rational>>) -> spec_fn(int, int) -> (int, int) {
    |k: int, b: int| g[k][b].value()
}

/// `m` is a matrix of fractions in lowest terms that, multiplied from the left to
/// the right half of the grid, gives the identity.
pub open spec fn undoes(m: spec_fn(int, int) -> (int, int), g: Seq<Seq<Rational>>, n: int) -> bool {
    all_ok2(m, n as nat, n as nat) && qm_same(
        qm_mul(m, right_half(g, n), n as nat),
        qm_one(),
        n as nat,
    )
}

/// The entries of the right half of an exact grid are fractions in lowest terms.
pub proof fn lemma_right_half_ok(g: Seq<Seq<Rational>>, n: int)
    requires
        has_shape(g, n, 2 * n),
        exact_grid(g),
    ensures
        all_ok2(right_half(g, n), n as nat, n as nat),
{
    assert forall|k: int, b: int| 0 <= k < n && 0 <= b < n implies q_ok(
        #[trigger] right_half(g, n)(k, b),
    ) by {
        assert(g[k].len() == 2 * n);
        assert(exact_row(g[k]));
        assert(g[k][n + b].wf());
    }
}

/// The values of a row from which a multiple of a pivot row, zero before column
/// `c`, has been subtracted from column `c` on: every entry is the exact
/// difference.
pub proof fn lemma_reduce_values(
    row: Seq<Rational>,
    pivot: Seq<Rational>,
    p: Rational,
    c: int,
    n: int,
)
    requires
        exact_row(row),
        exact_row(pivot),
        p.wf(),
        row.len() == 2 * n,
        pivot.len() == 2 * n,
        0 <= c,
        zero_before(pivot, c),
    ensures
        reduce_from(row, pivot, p, c) matches Some(out) ==> {
            &&& out.len() == 2 * n
            &&& exact_row(out)
            &&& forall|t: int|
                0 <= t < 2 * n ==> (#[trigger] out[t]).value() == q_sub(
                    row[t].value(),
                    q_mul(pivot[t].value(), p.value()),
                )
        },
{
    if let Some(out) = reduce_from(row, pivot, p, c) {
        lemma_reduce_entries(row, pivot, p, c);
        lemma_constants_ok();
        lemma_exact_constants();
        assert forall|t: int| 0 <= t < 2 * n implies (#[trigger] out[t]).wf() && out[t].value()
            == q_sub(row[t].value(), q_mul(pivot[t].value(), p.value())) by {
            assert(row[t].wf());
            assert(pivot[t].wf());
            if t < c {
                assert(out[t] == row[t]);
                assert(pivot[t] == Rational::zero_spec());
                lemma_mul_one(p.value());
                lemma_add_zero(row[t].value());
            } else {
                assert(reduced_entry(row[t], pivot[t], p) == Some(out[t]));
                lemma_exact_arithmetic(pivot[t], p);
                let m = pivot[t].mul_spec(p).unwrap();
                lemma_exact_arithmetic(row[t], m);
            }
        }
    }
}

/// The values of a row, zero before column `c`, that has been divided from
/// column `c` on: every entry is the exact product with the inverse of the
/// divisor, which is not zero.
pub proof fn lemma_scale_values(row: Seq<Rational>, d: Rational, c: int, n: int)
    requires
        exact_row(row),
        d.wf(),
        row.len() == 2 * n,
        0 <= c < 2 * n,
        zero_before(row, c),
    ensures
        scale_from(row, d, c) matches Some(out) ==> {
            &&& out.len() == 2 * n
            &&& exact_row(out)
            &&& d.value().0 != 0
            &&& forall|t: int|
                0 <= t < 2 * n ==> (#[trigger] out[t]).value() == q_mul(
                    row[t].value(),
                    q_div(q_one(), d.value()),
                )
        },
{
    if let Some(out) = scale_from(row, d, c) {
        lemma_scale_entries(row, d, c);
        lemma_constants_ok();
        lemma_exact_constants();
        assert(row[c].div_spec(d) == Some(out[c]));
        assert(row[c].wf());
        lemma_exact_arithmetic(row[c], d);
        let dv = d.value();
        lemma_q_closed(q_one(), dv);
        let inverse = q_div(q_one(), dv);
        assert forall|t: int| 0 <= t < 2 * n implies (#[trigger] out[t]).wf() && out[t].value()
            == q_mul(row[t].value(), inverse) by {
            assert(row[t].wf());
            if t < c {
                assert(out[t] == row[t]);
                assert(row[t] == Rational::zero_spec());
                lemma_mul_one(inverse);
            } else {
                assert(row[t].div_spec(d) == Some(out[t]));
                lemma_exact_arithmetic(row[t], d);
                lemma_div_is_mul(row[t].value(), dv);
            }
        }
    }
}

/// The matrix `m` with its columns `i` and `j` exchanged.
pub open spec fn columns_swapped(m: spec_fn(int, int) -> (int, int), i: int, j: int) -> spec_fn(
    int,
    int,
) -> (int, int) {
    |a: int, k: int|
        if k == i {
            m(a, j)
        } else if k == j {
            m(a, i)
        } else {
            m(a, k)
        }
}

/// Exchanging two rows of the grid is undone by exchanging two columns of the
/// matrix that undoes the grid.
pub proof fn lemma_swap_undone(
    g: Seq<Seq<Rational>>,
    m: spec_fn(int, int) -> (int, int),
    i: int,
    j: int,
    n: int,
)
    requires
        has_shape(g, n, 2 * n),
        exact_grid(g),
        undoes(m, g, n),
        0 <= i < n,
        0 <= j < n,
    ensures
        undoes(columns_swapped(m, i, j), swapped(g, i, j), n),
{
    let g2 = swapped(g, i, j);
    let m2 = columns_swapped(m, i, j);
    let r = right_half(g, n);
    let r2 = right_half(g2, n);
    lemma_right_half_ok(g, n);
    crate::theory::linear::lemma_qm_ok(m, r, n as nat);
    assert(all_ok2(m2, n as nat, n as nat)) by {
        assert forall|a: int, k: int| 0 <= a < n && 0 <= k < n implies q_ok(
            #[trigger] m2(a, k),
        ) by {
            assert(q_ok(m(a, i)) && q_ok(m(a, j)) && q_ok(m(a, k)));
        }
    }
    assert forall|a: int, b: int| 0 <= a < n && 0 <= b < n implies #[trigger] qm_mul(
        m2,
        r2,
        n as nat,
    )(a, b) == qm_one()(a, b) by {
        let f = qm_terms(m, r, a, b);
        let f2 = qm_terms(m2, r2, a, b);
        assert(all_ok(f, n as nat));
        assert(f2(i) == f(j));
        assert(f2(j) == f(i));
        assert forall|k: int| 0 <= k < n && k != i && k != j implies #[trigger] f2(k) == f(
            k,
        ) by {
            assert(g2[k] == g[k]);
        }
        assert(all_ok(f2, n as nat)) by {
            assert forall|k: int| 0 <= k < n implies q_ok(#[trigger] f2(k)) by {
                assert(q_ok(f(k)));
                assert(q_ok(f(i)));
                assert(q_ok(f(j)));
                if k != i && k != j {
                    assert(f2(k) == f(k));
                }
            }
        }
        if i != j {
            assert(q_ok(f(i)) && q_ok(f(j)));
            crate::theory::field::lemma_add_commutes(f(i), f(j));
            lemma_q_sum_two_changed(f, f2, i, j, n as nat);
        } else {
            lemma_q_sum_congruence(f2, f, n as nat);
        }
        assert(qm_mul(m, r, n as nat)(a, b) == qm_one()(a, b));
    }
}

/// The matrix `m` with its column `i` multiplied by `d`.
pub open spec fn column_scaled(m: spec_fn(int, int) -> (int, int), i: int, d: (int, int)) -> spec_fn(
    int,
    int,
) -> (int, int) {
    |a: int, k: int|
        if k == i {
            q_mul(m(a, k), d)
        } else {
            m(a, k)
        }
}

/// Dividing a row of the grid is undone by multiplying a column of the matrix
/// that undoes the grid.
pub proof fn lemma_scale_undone(
    g: Seq<Seq<Rational>>,
    out: Seq<Rational>,
    m: spec_fn(int, int) -> (int, int),
    i: int,
    d: (int, int),
    n: int,
)
    requires
        has_shape(g, n, 2 * n),
        exact_grid(g),
        undoes(m, g, n),
        0 <= i < n,
        q_ok(d),
        d.0 != 0,
        out.len() == 2 * n,
        exact_row(out),
        forall|t: int| 0 <= t < 2 * n ==> (#[trigger] out[t]).value() == q_mul(
            g[i][t].value(),
            q_div(q_one(), d),
        ),
    ensures
        undoes(column_scaled(m, i, d), g.update(i, out), n),
{
    let g2 = g.update(i, out);
    let m2 = column_scaled(m, i, d);
    let r = right_half(g, n);
    let r2 = right_half(g2, n);
    lemma_constants_ok();
    lemma_q_closed(q_one(), d);
    let inverse = q_div(q_one(), d);
    lemma_right_half_ok(g, n);
    crate::theory::linear::lemma_qm_ok(m, r, n as nat);
    assert(all_ok2(m2, n as nat, n as nat)) by {
        assert forall|a: int, k: int| 0 <= a < n && 0 <= k < n implies q_ok(
            #[trigger] m2(a, k),
        ) by {
            assert(q_ok(m(a, k)));
            lemma_q_closed(m(a, k), d);
        }
    }
    assert forall|a: int, b: int| 0 <= a < n && 0 <= b < n implies #[trigger] qm_mul(
        m2,
        r2,
        n as nat,
    )(a, b) == qm_one()(a, b) by {
        let f = qm_terms(m, r, a, b);
        let f2 = qm_terms(m2, r2, a, b);
        assert forall|k: int| 0 <= k < n implies #[trigger] f2(k) == f(k) by {
            if k == i {
                let x = m(a, i);
                let y = g[i][n + b].value();
                assert(q_ok(x));
                assert(g[i].len() == 2 * n);
                assert(exact_row(g[i]));
                assert(g[i][n + b].wf());
                assert(out[n + b].value() == q_mul(y, inverse));
                // (x d) (y / d) == x y
                lemma_q_closed(x, d);
                lemma_q_closed(y, inverse);
                crate::theory::field::lemma_mul_associates(x, d, q_mul(y, inverse));
                lemma_mul_commutes(y, inverse);
                lemma_q_closed(inverse, y);
                crate::theory::field::lemma_mul_associates(d, inverse, y);
                lemma_div_mul(q_one(), d);
                lemma_mul_commutes(inverse, d);
                lemma_mul_one(y);
            } else {
                assert(g2[k] == g[k]);
            }
        }
        lemma_q_sum_congruence(f2, f, n as nat);
        assert(qm_mul(m, r, n as nat)(a, b) == qm_one()(a, b));
    }
}

/// The matrix `m` with `p` times its column `r` added to its column `i`.
pub open spec fn column_added(
    m: spec_fn(int, int) -> (int, int),
    i: int,
    r: int,
    p: (int, int),
) -> spec_fn(int, int) -> (int, int) {
    |a: int, k: int|
        if k == i {
            q_add(m(a, i), q_mul(m(a, r), p))
        } else {
            m(a, k)
        }
}

/// Subtracting a multiple of row `i` from row `r` of the grid is undone by adding
/// the same multiple of column `r` to column `i` of the matrix that undoes the
/// grid.
pub proof fn lemma_reduce_undone(
    g: Seq<Seq<Rational>>,
    out: Seq<Rational>,
    m: spec_fn(int, int) -> (int, int),
    i: int,
    r: int,
    p: (int, int),
    n: int,
)
    requires
        has_shape(g, n, 2 * n),
        exact_grid(g),
        undoes(m, g, n),
        0 <= i < n,
        0 <= r < n,
        i != r,
        q_ok(p),
        out.len() == 2 * n,
        exact_row(out),
        forall|t: int| 0 <= t < 2 * n ==> (#[trigger] out[t]).value() == q_sub(
            g[r][t].value(),
            q_mul(g[i][t].value(), p),
        ),
    ensures
        undoes(column_added(m, i, r, p), g.update(r, out), n),
{
    let g2 = g.update(r, out);
    let m2 = column_added(m, i, r, p);
    let right = right_half(g, n);
    let right2 = right_half(g2, n);
    lemma_right_half_ok(g, n);
    crate::theory::linear::lemma_qm_ok(m, right, n as nat);
    assert(all_ok2(m2, n as nat, n as nat)) by {
        assert forall|a: int, k: int| 0 <= a < n && 0 <= k < n implies q_ok(
            #[trigger] m2(a, k),
        ) by {
            assert(q_ok(m(a, k)) && q_ok(m(a, i)) && q_ok(m(a, r)));
            lemma_q_closed(m(a, r), p);
            lemma_q_closed(m(a, i), q_mul(m(a, r), p));
        }
    }
    assert forall|a: int, b: int| 0 <= a < n && 0 <= b < n implies #[trigger] qm_mul(
        m2,
        right2,
        n as nat,
    )(a, b) == qm_one()(a, b) by {
        let f = qm_terms(m, right, a, b);
        let f2 = qm_terms(m2, right2, a, b);
        assert(all_ok(f, n as nat));
        let mi = m(a, i);
        let mr = m(a, r);
        let gi = g[i][n + b].value();
        let gr = g[r][n + b].value();
        assert(q_ok(mi) && q_ok(mr));
        assert(g[i].len() == 2 * n && g[r].len() == 2 * n);
        assert(exact_row(g[i]) && exact_row(g[r]));
        assert(g[i][n + b].wf() && g[r][n + b].wf());
        assert(out[n + b].value() == q_sub(gr, q_mul(gi, p)));
        assert(g2[i] == g[i]);
        assert forall|k: int| 0 <= k < n && k != i && k != r implies #[trigger] f2(k) == f(
            k,
        ) by {
            assert(g2[k] == g[k]);
        }
        // f2(i) = (mi + mr p) gi = mi gi + u, and f2(r) = mr (gr - gi p) = mr gr - u,
        // with u = (mr p) gi.
        lemma_q_closed(mr, p);
        lemma_q_closed(gi, p);
        let u = q_mul(q_mul(mr, p), gi);
        lemma_q_closed(q_mul(mr, p), gi);
        lemma_q_closed(mi, gi);
        lemma_q_closed(mr, gr);
        crate::theory::field::lemma_distributes(gi, mi, q_mul(mr, p));
        assert(f2(i) == q_add(q_mul(mi, gi), u));
        lemma_mul_difference(gr, q_mul(gi, p), mr);
        lemma_q_closed(gr, q_mul(gi, p));
        lemma_mul_commutes(q_sub(gr, q_mul(gi, p)), mr);
        lemma_mul_commutes(gr, mr);
        lemma_mul_commutes(q_mul(gi, p), mr);
        crate::theory::field::lemma_mul_associates(mr, gi, p);
        lemma_mul_rotate(mr, gi, p);
        assert(f2(r) == q_sub(q_mul(mr, gr), u));
        lemma_add_then_subtract(q_mul(mi, gi), q_mul(mr, gr), u);
        assert(all_ok(f2, n as nat)) by {
            assert forall|k: int| 0 <= k < n implies q_ok(#[trigger] f2(k)) by {
                assert(q_ok(f(k)));
                if k == i {
                    lemma_q_closed(q_mul(mi, gi), u);
                } else if k == r {
                    lemma_q_closed(q_mul(mr, gr), u);
                } else {
                    assert(f2(k) == f(k));
                }
            }
        }
        lemma_q_sum_two_changed(f, f2, i, r, n as nat);
        assert(qm_mul(m, right, n as nat)(a, b) == qm_one()(a, b));
    }
}

/// Adding a fraction to one summand and subtracting it from the other leaves the
/// sum as it was.
pub proof fn lemma_add_then_subtract(x: (int, int), y: (int, int), u: (int, int))
    requires
        q_ok(x),
        q_ok(y),
        q_ok(u),
    ensures
        q_add(q_add(x, u), q_sub(y, u)) == q_add(x, y),
{
    // (x + u) + (y - u) == (x + y) + (u - u)
    crate::theory::field::lemma_sub_is_add_neg(y, u);
    lemma_q_closed(u, u);
    let m = crate::theory::field::q_neg(u);
    lemma_q_closed(x, u);
    lemma_q_closed(x, y);
    crate::theory::field::lemma_add_associates(q_add(x, u), y, m);
    crate::theory::linear::lemma_add_rotate(x, u, y);
    crate::theory::field::lemma_add_associates(q_add(x, y), u, m);
    crate::theory::field::lemma_sub_is_add_neg(u, u);
    lemma_cancel(u);
    lemma_add_zero(q_add(x, y));
}

/// The exact entry at `r` of the product of a matrix with a column vector.
pub open spec fn times_vector(a: Seq<Seq<Rational>>, v: Seq<Rational>, r: int, n: int) -> (
    int,
    int,
) {
    q_sum(|k: int| q_mul(a[r][k].value(), v[k].value()), n as nat)
}

/// The vector is in the kernel of the matrix: the matrix times the vector is zero.
pub open spec fn in_kernel(a: Seq<Seq<Rational>>, v: Seq<Rational>, n: int) -> bool {
    forall|r: int| 0 <= r < n ==> #[trigger] times_vector(a, v, r, n) == q_zero()
}

/// The matrix whose first column is the vector and whose other columns are zero.
pub open spec fn as_first_column(v: Seq<Rational>) -> spec_fn(int, int) -> (int, int) {
    |k: int, b: int|
        if b == 0 {
            v[k].value()
        } else {
            q_zero()
        }
}

/// A singular matrix has no inverse: where an exact vector that is not zero is
/// sent to zero by an exact square matrix, the inversion of the matrix fails.
pub proof fn lemma_singular_has_no_inverse(a: Seq<Seq<Rational>>, v: Seq<Rational>, at: int)
    requires
        rectangular(a),
        exact_grid(a),
        exact_row(v),
        v.len() == height(a),
        0 <= at < v.len(),
        v[at] != Rational::zero_spec(),
        in_kernel(a, v, height(a) as int),
    ensures
        inverse_of(a) is Err,
{
    if inverse_of(a) is Ok {
        let n = height(a) as int;
        let nn = n as nat;
        lemma_inverse_is_inverse(a);
        lemma_constants_ok();
        lemma_exact_constants();
        let inverse = inverse_of(a)->Ok_0.grid;
        let r = exact_entries(inverse);
        let e = exact_entries(a);
        let w = as_first_column(v);
        assert(has_shape(a, n, n)) by {
            assert forall|k: int| 0 <= k < n implies (#[trigger] a[k]).len() == n by {
                assert(a[k].len() == a[0].len());
            }
        }
        assert(all_ok2(r, nn, nn)) by {
            assert forall|k: int, b: int| 0 <= k < n && 0 <= b < n implies q_ok(
                #[trigger] r(k, b),
            ) by {
                assert(exact_row(inverse[k]));
                assert(inverse[k].len() == n);
                assert(inverse[k][b].wf());
            }
        }
        assert(all_ok2(e, nn, nn)) by {
            assert forall|k: int, b: int| 0 <= k < n && 0 <= b < n implies q_ok(
                #[trigger] e(k, b),
            ) by {
                assert(exact_row(a[k]));
                assert(a[k].len() == n);
                assert(a[k][b].wf());
            }
        }
        assert(all_ok2(w, nn, nn)) by {
            assert forall|k: int, b: int| 0 <= k < n && 0 <= b < n implies q_ok(
                #[trigger] w(k, b),
            ) by {
                assert(v[k].wf());
            }
        }
        // (inverse * a) * w == inverse * (a * w), the left side is w and the right
        // side is zero.
        crate::theory::linear::lemma_qm_associative(r, e, w, nn);
        crate::theory::linear::lemma_qm_one(w, nn);
        let ra = qm_mul(r, e, nn);
        assert(qm_same(ra, qm_one(), nn)) by {
            assert forall|x: int, y: int| 0 <= x < n && 0 <= y < n implies #[trigger] ra(x, y)
                == qm_one()(x, y) by {
                lemma_q_sum_congruence(
                    qm_terms(r, e, x, y),
                    product_terms(inverse, a, x, y),
                    nn,
                );
                assert(product_value(inverse, a, x, y, n) == identity_value(x, y));
            }
        }
        assert(qm_same(w, w, nn));
        crate::theory::linear::lemma_qm_congruence(ra, qm_one(), w, w, nn);
        let aw = qm_mul(e, w, nn);
        assert forall|x: int, y: int| 0 <= x < n && 0 <= y < n implies #[trigger] aw(x, y)
            == q_zero() by {
            if y == 0 {
                lemma_q_sum_congruence(
                    qm_terms(e, w, x, y),
                    |k: int| q_mul(a[x][k].value(), v[k].value()),
                    nn,
                );
                assert(times_vector(a, v, x, n) == q_zero());
            } else {
                assert forall|k: int| 0 <= k < n implies #[trigger] qm_terms(e, w, x, y)(k)
                    == q_zero() by {
                    assert(q_ok(e(x, k)));
                    lemma_mul_one(e(x, k));
                }
                crate::theory::linear::lemma_q_sum_of_zeros(qm_terms(e, w, x, y), nn);
            }
        }
        let product = qm_mul(r, aw, nn);
        assert forall|k: int| 0 <= k < n implies #[trigger] qm_terms(r, aw, at, 0)(k)
            == q_zero() by {
            assert(q_ok(r(at, k)));
            assert(aw(k, 0) == q_zero());
            lemma_mul_one(r(at, k));
        }
        crate::theory::linear::lemma_q_sum_of_zeros(qm_terms(r, aw, at, 0), nn);
        assert(product(at, 0) == q_zero());
        assert(qm_mul(ra, w, nn)(at, 0) == product(at, 0));
        assert(qm_mul(ra, w, nn)(at, 0) == qm_mul(qm_one(), w, nn)(at, 0));
        assert(qm_mul(qm_one(), w, nn)(at, 0) == w(at, 0));
        assert(v[at].value() == q_zero());
        assert(v[at].wf());
        lemma_exact_arithmetic(v[at], Rational::zero_spec());
    }
}

} // verus!

//! Powers of matrices of fractions add up.

use crate::grid::{
    grid_mul, grid_pow, height, identity_grid, lemma_grid_from, pow_by_squaring, product_cell,
    rectangular, width,
};
use crate::theory::inversion::{exact_entries, exact_grid, exact_row, lemma_dot_value, product_terms};
use crate::theory::linear::{
    all_ok2, lemma_q_sum_congruence, lemma_qm_associative, lemma_qm_chain, lemma_qm_congruence,
    lemma_qm_flip, lemma_qm_one, lemma_qm_power_congruence, lemma_qm_power_of_square,
    lemma_qm_power_of_sum, lemma_qm_power_ok, lemma_qm_power_one, lemma_qm_refl, qm_mul, qm_one,
    qm_power, qm_same, qm_terms,
};
use crate::theory::field::q_ok;
use crate::rationals::{lemma_exact_arithmetic, lemma_exact_constants, Rational};
use crate::reduction::has_shape;
use crate::traits::MatrixNumber;
use vstd::prelude::*;

verus! {

/// The entries of an exact grid of side `n` are fractions in lowest terms.
pub proof fn lemma_entries_ok(g: Seq<Seq<Rational>>, n: int)
    requires
        has_shape(g, n, n),
        exact_grid(g),
    ensures
        all_ok2(exact_entries(g), n as nat, n as nat),
{
    assert forall|k: int, b: int| 0 <= k < n && 0 <= b < n implies q_ok(
        #[trigger] exact_entries(g)(k, b),
    ) by {
        assert(g[k].len() == n);
        assert(exact_row(g[k]));
        assert(g[k][b].wf());
    }
}

/// A product of two exact squares that exists is an exact square whose entries
/// are the exact entries of the product.
pub proof fn lemma_exact_product(x: Seq<Seq<Rational>>, y: Seq<Seq<Rational>>, n: int)
    requires
        n > 0,
        exact_grid(x),
        exact_grid(y),
        has_shape(x, n, n),
        has_shape(y, n, n),
    ensures
        grid_mul(x, y) matches Ok(c) ==> has_shape(c, n, n) && exact_grid(c) && qm_same(
            exact_entries(c),
            qm_mul(exact_entries(x), exact_entries(y), n as nat),
            n as nat,
        ),
{
    if let Ok(c) = grid_mul(x, y) {
        assert(x[0].len() == n && y[0].len() == n);
        lemma_grid_from(n as nat, n as nat, |i: int, j: int| product_cell(x, y, i, j).unwrap());
        assert forall|r: int, j: int| 0 <= r < n && 0 <= j < n implies (#[trigger] c[r][j]).wf()
            && exact_entries(c)(r, j) == qm_mul(exact_entries(x), exact_entries(y), n as nat)(
            r,
            j,
        ) by {
            lemma_dot_value(x, y, r, j, n as nat, n);
            assert(product_cell(x, y, r, j).is_some());
            assert(c[r][j] == product_cell(x, y, r, j).unwrap());
            lemma_q_sum_congruence(
                product_terms(x, y, r, j),
                qm_terms(exact_entries(x), exact_entries(y), r, j),
                n as nat,
            );
        }
        assert(exact_grid(c)) by {
            assert forall|r: int| 0 <= r < c.len() implies exact_row(#[trigger] c[r]) by {
                assert forall|k: int| 0 <= k < c[r].len() implies (#[trigger] c[r][k]).wf() by {
                    assert(c[r][k].wf());
                }
            }
        }
    }
}

/// The identity grid is an exact square whose entries are the exact entries of
/// the identity.
pub proof fn lemma_exact_identity(n: int)
    requires
        n > 0,
    ensures
        has_shape(identity_grid::<Rational>(n as nat), n, n),
        exact_grid(identity_grid::<Rational>(n as nat)),
        qm_same(exact_entries(identity_grid::<Rational>(n as nat)), qm_one(), n as nat),
{
    let zero = Rational::zero_spec();
    let one = Rational::one_spec();
    lemma_exact_constants();
    lemma_grid_from(
        n as nat,
        n as nat,
        |i: int, j: int|
            if i == j {
                one
            } else {
                zero
            },
    );
    let identity = identity_grid::<Rational>(n as nat);
    assert forall|r: int| 0 <= r < identity.len() implies exact_row(#[trigger] identity[r]) by {
        assert forall|k: int| 0 <= k < identity[r].len() implies (#[trigger] identity[r][k]).wf() by {
            assert(identity[r].len() == n);
        }
    }
}

/// What exponentiation by squaring returns for exact squares, if anything, is an
/// exact square whose entries are those of `result` times the power of `square`.
pub proof fn lemma_exact_squaring(
    result: Seq<Seq<Rational>>,
    square: Seq<Seq<Rational>>,
    e: nat,
    n: int,
)
    requires
        n > 0,
        exact_grid(result),
        exact_grid(square),
        has_shape(result, n, n),
        has_shape(square, n, n),
    ensures
        pow_by_squaring(result, square, e) matches Ok(z) ==> has_shape(z, n, n) && exact_grid(z)
            && qm_same(
            exact_entries(z),
            qm_mul(exact_entries(result), qm_power(exact_entries(square), e, n as nat), n as nat),
            n as nat,
        ),
    decreases e,
{
    let nn = n as nat;
    let r = exact_entries(result);
    let s = exact_entries(square);
    lemma_entries_ok(result, n);
    lemma_entries_ok(square, n);
    if e == 0 {
        lemma_qm_one(r, nn);
        lemma_qm_flip(qm_mul(r, qm_one(), nn), r, nn);
    } else if let Ok(z) = pow_by_squaring(result, square, e) {
        let half = e / 2;
        lemma_exact_product(result, square, n);
        lemma_exact_product(square, square, n);
        let next = if e % 2 == 1 {
            grid_mul(result, square)->Ok_0
        } else {
            result
        };
        let squared = grid_mul(square, square)->Ok_0;
        lemma_exact_squaring(next, squared, half, n);
        let s2 = exact_entries(squared);
        lemma_qm_power_congruence(s2, qm_mul(s, s, nn), half, nn);
        lemma_qm_power_of_square(s, half, nn);
        lemma_qm_chain(
            qm_power(s2, half, nn),
            qm_power(qm_mul(s, s, nn), half, nn),
            qm_power(s, 2 * half, nn),
            nn,
        );
        let even_power = qm_power(s, 2 * half, nn);
        lemma_qm_power_ok(s, 2 * half, nn);
        lemma_qm_power_ok(s, e, nn);
        if e % 2 == 1 {
            lemma_qm_congruence(
                exact_entries(next),
                qm_mul(r, s, nn),
                qm_power(s2, half, nn),
                even_power,
                nn,
            );
            lemma_qm_associative(r, s, even_power, nn);
            lemma_qm_power_one(s, nn);
            lemma_qm_power_of_sum(s, 1, 2 * half, nn);
            lemma_qm_flip(qm_power(s, 1, nn), s, nn);
            lemma_qm_refl(even_power, nn);
            lemma_qm_congruence(s, qm_power(s, 1, nn), even_power, even_power, nn);
            lemma_qm_flip(
                qm_power(s, e, nn),
                qm_mul(qm_power(s, 1, nn), even_power, nn),
                nn,
            );
            lemma_qm_chain(
                qm_mul(s, even_power, nn),
                qm_mul(qm_power(s, 1, nn), even_power, nn),
                qm_power(s, e, nn),
                nn,
            );
            lemma_qm_refl(r, nn);
            lemma_qm_congruence(r, r, qm_mul(s, even_power, nn), qm_power(s, e, nn), nn);
            lemma_qm_chain(
                exact_entries(z),
                qm_mul(exact_entries(next), qm_power(s2, half, nn), nn),
                qm_mul(qm_mul(r, s, nn), even_power, nn),
                nn,
            );
            lemma_qm_chain(
                exact_entries(z),
                qm_mul(qm_mul(r, s, nn), even_power, nn),
                qm_mul(r, qm_mul(s, even_power, nn), nn),
                nn,
            );
            lemma_qm_chain(
                exact_entries(z),
                qm_mul(r, qm_mul(s, even_power, nn), nn),
                qm_mul(r, qm_power(s, e, nn), nn),
                nn,
            );
        } else {
            lemma_qm_refl(r, nn);
            lemma_qm_congruence(r, r, qm_power(s2, half, nn), even_power, nn);
            lemma_qm_chain(
                exact_entries(z),
                qm_mul(r, qm_power(s2, half, nn), nn),
                qm_mul(r, qm_power(s, e, nn), nn),
                nn,
            );
        }
    }
}

/// A power of an exact square matrix that exists is an exact square whose
/// entries are the exact entries of the power.
pub proof fn lemma_exact_power(a: Seq<Seq<Rational>>, e: nat)
    requires
        rectangular(a),
        exact_grid(a),
        height(a) == width(a),
        height(a) > 0,
    ensures
        grid_pow(a, e) matches Ok(z) ==> has_shape(z, height(a) as int, height(a) as int)
            && exact_grid(z) && qm_same(
            exact_entries(z),
            qm_power(exact_entries(a), e, height(a)),
            height(a),
        ),
{
    let n = height(a) as int;
    let nn = n as nat;
    if let Ok(z) = grid_pow(a, e) {
        assert(has_shape(a, n, n)) by {
            assert forall|r: int| 0 <= r < n implies (#[trigger] a[r]).len() == n by {
                assert(a[r].len() == a[0].len());
            }
        }
        lemma_exact_identity(n);
        let one = identity_grid::<Rational>(nn);
        lemma_exact_squaring(one, a, e, n);
        lemma_entries_ok(a, n);
        let power = qm_power(exact_entries(a), e, nn);
        lemma_qm_power_ok(exact_entries(a), e, nn);
        lemma_qm_refl(power, nn);
        lemma_qm_congruence(exact_entries(one), qm_one(), power, power, nn);
        lemma_qm_one(power, nn);
        lemma_qm_chain(
            exact_entries(z),
            qm_mul(exact_entries(one), power, nn),
            qm_mul(qm_one(), power, nn),
            nn,
        );
        lemma_qm_chain(exact_entries(z), qm_mul(qm_one(), power, nn), power, nn);
    }
}

/// Exact squares with the same exact entries are the same grid.
pub proof fn lemma_same_values_same_grid(x: Seq<Seq<Rational>>, y: Seq<Seq<Rational>>, n: int)
    requires
        has_shape(x, n, n),
        has_shape(y, n, n),
        exact_grid(x),
        exact_grid(y),
        qm_same(exact_entries(x), exact_entries(y), n as nat),
    ensures
        x == y,
{
    assert forall|i: int| 0 <= i < n implies x[i] == y[i] by {
        assert(exact_row(x[i]) && exact_row(y[i]));
        assert forall|j: int| 0 <= j < n implies x[i][j] == y[i][j] by {
            assert(exact_entries(x)(i, j) == exact_entries(y)(i, j));
            assert(x[i][j].wf() && y[i][j].wf());
            lemma_exact_arithmetic(x[i][j], y[i][j]);
        }
        assert(x[i].len() == n);
        assert(y[i].len() == n);
        assert(x[i] =~= y[i]);
    }
    assert(x =~= y);
}

/// What exponentiation by squaring returns for empty matrices is the matrix
/// without rows.
pub proof fn lemma_empty_squaring(result: Seq<Seq<Rational>>, square: Seq<Seq<Rational>>, e: nat)
    requires
        result.len() == 0,
        height(square) == 0,
    ensures
        pow_by_squaring(result, square, e) matches Ok(z) ==> z.len() == 0,
    decreases e,
{
    if e > 0 {
        if let Ok(z) = pow_by_squaring(result, square, e) {
            let next = if e % 2 == 1 {
                grid_mul(result, square)->Ok_0
            } else {
                result
            };
            let squared = grid_mul(square, square)->Ok_0;
            lemma_empty_squaring(next, squared, e / 2);
        }
    }
}

/// The power law over exact fractions: where the powers of a square matrix to
/// `x`, to `y` and to `x + y` exist, and the product of the first two exists,
/// that product is the power to `x + y`.
pub proof fn lemma_fraction_power_of_sum(a: Seq<Seq<Rational>>, x: nat, y: nat)
    requires
        rectangular(a),
        exact_grid(a),
        grid_pow(a, x) is Ok,
        grid_pow(a, y) is Ok,
        grid_pow(a, x + y) is Ok,
        grid_mul(grid_pow(a, x)->Ok_0, grid_pow(a, y)->Ok_0) is Ok,
    ensures
        grid_pow(a, x + y) == grid_mul(grid_pow(a, x)->Ok_0, grid_pow(a, y)->Ok_0),
{
    let n = height(a) as int;
    let nn = n as nat;
    let px = grid_pow(a, x)->Ok_0;
    let py = grid_pow(a, y)->Ok_0;
    let pz = grid_pow(a, x + y)->Ok_0;
    let w = grid_mul(px, py)->Ok_0;
    if n == 0 {
        lemma_grid_from(
            0,
            0,
            |i: int, j: int|
                if i == j {
                    Rational::one_spec()
                } else {
                    Rational::zero_spec()
                },
        );
        lemma_empty_squaring(identity_grid::<Rational>(0), a, x);
        lemma_empty_squaring(identity_grid::<Rational>(0), a, x + y);
        assert(pz.len() == 0);
        assert(px.len() == 0);
        assert(w.len() == 0);
        assert(w =~= pz);
    } else {
        let m = exact_entries(a);
        assert(has_shape(a, n, n)) by {
            assert forall|r: int| 0 <= r < n implies (#[trigger] a[r]).len() == n by {
                assert(a[r].len() == a[0].len());
            }
        }
        lemma_entries_ok(a, n);
        lemma_exact_power(a, x);
        lemma_exact_power(a, y);
        lemma_exact_power(a, x + y);
        lemma_exact_product(px, py, n);
        lemma_qm_congruence(
            exact_entries(px),
            qm_power(m, x, nn),
            exact_entries(py),
            qm_power(m, y, nn),
            nn,
        );
        lemma_qm_power_of_sum(m, x, y, nn);
        lemma_qm_flip(
            qm_power(m, x + y, nn),
            qm_mul(qm_power(m, x, nn), qm_power(m, y, nn), nn),
            nn,
        );
        lemma_qm_chain(
            exact_entries(w),
            qm_mul(exact_entries(px), exact_entries(py), nn),
            qm_mul(qm_power(m, x, nn), qm_power(m, y, nn), nn),
            nn,
        );
        lemma_qm_chain(
            exact_entries(w),
            qm_mul(qm_power(m, x, nn), qm_power(m, y, nn), nn),
            qm_power(m, x + y, nn),
            nn,
        );
        lemma_qm_flip(exact_entries(pz), qm_power(m, x + y, nn), nn);
        lemma_qm_chain(exact_entries(w), qm_power(m, x + y, nn), exact_entries(pz), nn);
        lemma_same_values_same_grid(w, pz, n);
    }
}

} // verus!

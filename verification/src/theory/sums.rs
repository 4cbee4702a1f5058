//! Sums and matrix products of integers.

use vstd::prelude::*;

verus! {

/// The sum of `f(0)` up to `f(n - 1)`.
pub open spec fn sum(f: spec_fn(int) -> int, n: nat) -> int
    decreases n,
{
    if n == 0 {
        0
    } else {
        sum(f, (n - 1) as nat) + f(n - 1)
    }
}

/// The function that adds the values of two functions.
pub open spec fn plus(f: spec_fn(int) -> int, g: spec_fn(int) -> int) -> spec_fn(int) -> int {
    |k: int| f(k) + g(k)
}

/// The function that multiplies the values of a function by `c`.
pub open spec fn times(c: int, f: spec_fn(int) -> int) -> spec_fn(int) -> int {
    |k: int| c * f(k)
}

/// A function of two arguments with its first argument fixed.
pub open spec fn fix_first(h: spec_fn(int, int) -> int, k: int) -> spec_fn(int) -> int {
    |l: int| h(k, l)
}

/// A function of two arguments with its second argument fixed.
pub open spec fn fix_second(h: spec_fn(int, int) -> int, l: int) -> spec_fn(int) -> int {
    |k: int| h(k, l)
}

/// For each first argument, the sum over the first `m` second arguments.
pub open spec fn row_sums(h: spec_fn(int, int) -> int, m: nat) -> spec_fn(int) -> int {
    |k: int| sum(fix_first(h, k), m)
}

/// For each second argument, the sum over the first `n` first arguments.
pub open spec fn column_sums(h: spec_fn(int, int) -> int, n: nat) -> spec_fn(int) -> int {
    |l: int| sum(fix_second(h, l), n)
}

/// Functions that agree below `n` have the same sum.
pub proof fn lemma_sum_congruence(f: spec_fn(int) -> int, g: spec_fn(int) -> int, n: nat)
    requires
        forall|k: int| 0 <= k < n ==> #[trigger] f(k) == g(k),
    ensures
        sum(f, n) == sum(g, n),
    decreases n,
{
    if n > 0 {
        lemma_sum_congruence(f, g, (n - 1) as nat);
        assert(f(n - 1) == g(n - 1));
    }
}

/// The sum of a sum of functions is the sum of their sums.
pub proof fn lemma_sum_plus(f: spec_fn(int) -> int, g: spec_fn(int) -> int, n: nat)
    ensures
        sum(plus(f, g), n) == sum(f, n) + sum(g, n),
    decreases n,
{
    if n > 0 {
        lemma_sum_plus(f, g, (n - 1) as nat);
    }
}

/// A factor can be drawn out of a sum.
pub proof fn lemma_sum_times(c: int, f: spec_fn(int) -> int, n: nat)
    ensures
        sum(times(c, f), n) == c * sum(f, n),
    decreases n,
{
    if n > 0 {
        lemma_sum_times(c, f, (n - 1) as nat);
        let rest = sum(f, (n - 1) as nat);
        let last = f(n - 1);
        assert(c * (rest + last) == c * rest + c * last) by (nonlinear_arith);
    }
}

/// A double sum can be taken in either order.
pub proof fn lemma_sum_exchange(h: spec_fn(int, int) -> int, n: nat, m: nat)
    ensures
        sum(row_sums(h, m), n) == sum(column_sums(h, n), m),
    decreases n,
{
    if n == 0 {
        lemma_sum_of_zeros(column_sums(h, 0), m);
    } else {
        let shorter = (n - 1) as nat;
        lemma_sum_exchange(h, shorter, m);
        lemma_sum_plus(column_sums(h, shorter), fix_first(h, n - 1), m);
        lemma_sum_congruence(
            column_sums(h, n),
            plus(column_sums(h, shorter), fix_first(h, n - 1)),
            m,
        );
    }
}

/// A function that is zero below `n` has the sum zero.
pub proof fn lemma_sum_of_zeros(f: spec_fn(int) -> int, n: nat)
    requires
        forall|k: int| 0 <= k < n ==> #[trigger] f(k) == 0,
    ensures
        sum(f, n) == 0,
    decreases n,
{
    if n > 0 {
        lemma_sum_of_zeros(f, (n - 1) as nat);
        assert(f(n - 1) == 0);
    }
}

/// A function that is zero below `n` but at `j` has the sum `f(j)`.
pub proof fn lemma_sum_of_one_term(f: spec_fn(int) -> int, j: int, n: nat)
    requires
        0 <= j < n,
        forall|k: int| 0 <= k < n && k != j ==> #[trigger] f(k) == 0,
    ensures
        sum(f, n) == f(j),
    decreases n,
{
    if j == n - 1 {
        lemma_sum_of_zeros(f, (n - 1) as nat);
    } else {
        lemma_sum_of_one_term(f, j, (n - 1) as nat);
        assert(f(n - 1) == 0);
    }
}

/// One term of the entry at `(i, j)` of a product of square matrices.
pub open spec fn product_term(
    a: spec_fn(int, int) -> int,
    b: spec_fn(int, int) -> int,
    i: int,
    j: int,
) -> spec_fn(int) -> int {
    |k: int| a(i, k) * b(k, j)
}

/// The product of two square matrices of side `n`, given by their entries.
pub open spec fn matrix_product(
    a: spec_fn(int, int) -> int,
    b: spec_fn(int, int) -> int,
    n: nat,
) -> spec_fn(int, int) -> int {
    |i: int, j: int| sum(product_term(a, b, i, j), n)
}

/// The entries of the identity matrix.
pub open spec fn matrix_one() -> spec_fn(int, int) -> int {
    |i: int, j: int|
        if i == j {
            1int
        } else {
            0int
        }
}

/// The power of a square matrix of side `n`: the identity multiplied `e` times by
/// the matrix.
pub open spec fn matrix_power(a: spec_fn(int, int) -> int, e: nat, n: nat) -> spec_fn(
    int,
    int,
) -> int
    decreases e,
{
    if e == 0 {
        matrix_one()
    } else {
        matrix_product(matrix_power(a, (e - 1) as nat, n), a, n)
    }
}

/// Two matrices have the same entries within side `n`.
pub open spec fn same_entries(
    a: spec_fn(int, int) -> int,
    b: spec_fn(int, int) -> int,
    n: nat,
) -> bool {
    forall|i: int, j: int| 0 <= i < n && 0 <= j < n ==> #[trigger] a(i, j) == b(i, j)
}

/// Products of matrices with the same entries have the same entries.
pub proof fn lemma_product_congruence(
    a: spec_fn(int, int) -> int,
    a2: spec_fn(int, int) -> int,
    b: spec_fn(int, int) -> int,
    b2: spec_fn(int, int) -> int,
    n: nat,
)
    requires
        same_entries(a, a2, n),
        same_entries(b, b2, n),
    ensures
        same_entries(matrix_product(a, b, n), matrix_product(a2, b2, n), n),
{
    assert forall|i: int, j: int| 0 <= i < n && 0 <= j < n implies #[trigger] matrix_product(
        a,
        b,
        n,
    )(i, j) == matrix_product(a2, b2, n)(i, j) by {
        assert forall|k: int| 0 <= k < n implies #[trigger] product_term(a, b, i, j)(k)
            == product_term(a2, b2, i, j)(k) by {
            assert(a(i, k) == a2(i, k));
            assert(b(k, j) == b2(k, j));
        }
        lemma_sum_congruence(product_term(a, b, i, j), product_term(a2, b2, i, j), n);
    }
}

/// The triple products that make up one entry of a product of three matrices.
pub open spec fn triple_term(
    a: spec_fn(int, int) -> int,
    b: spec_fn(int, int) -> int,
    c: spec_fn(int, int) -> int,
    i: int,
    j: int,
) -> spec_fn(int, int) -> int {
    |k: int, l: int| a(i, l) * b(l, k) * c(k, j)
}

/// The product of matrices is associative.
pub proof fn lemma_product_associative(
    a: spec_fn(int, int) -> int,
    b: spec_fn(int, int) -> int,
    c: spec_fn(int, int) -> int,
    n: nat,
)
    ensures
        same_entries(
            matrix_product(matrix_product(a, b, n), c, n),
            matrix_product(a, matrix_product(b, c, n), n),
            n,
        ),
{
    let ab = matrix_product(a, b, n);
    let bc = matrix_product(b, c, n);
    assert forall|i: int, j: int| 0 <= i < n && 0 <= j < n implies #[trigger] matrix_product(
        ab,
        c,
        n,
    )(i, j) == matrix_product(a, bc, n)(i, j) by {
        let h = triple_term(a, b, c, i, j);
        // Each term of the left product is a sum of triple products.
        assert forall|k: int| 0 <= k < n implies #[trigger] product_term(ab, c, i, j)(k)
            == row_sums(h, n)(k) by {
            lemma_sum_times(c(k, j), product_term(a, b, i, k), n);
            assert forall|l: int| 0 <= l < n implies #[trigger] times(
                c(k, j),
                product_term(a, b, i, k),
            )(l) == fix_first(h, k)(l) by {
                let x = a(i, l);
                let y = b(l, k);
                let z = c(k, j);
                assert(z * (x * y) == x * y * z) by (nonlinear_arith);
            }
            lemma_sum_congruence(
                times(c(k, j), product_term(a, b, i, k)),
                fix_first(h, k),
                n,
            );
            let s = sum(product_term(a, b, i, k), n);
            let z = c(k, j);
            assert(s * z == z * s) by (nonlinear_arith);
        }
        lemma_sum_congruence(product_term(ab, c, i, j), row_sums(h, n), n);
        lemma_sum_exchange(h, n, n);
        // Each term of the right product is a sum of triple products.
        assert forall|l: int| 0 <= l < n implies #[trigger] product_term(a, bc, i, j)(l)
            == column_sums(h, n)(l) by {
            lemma_sum_times(a(i, l), product_term(b, c, l, j), n);
            assert forall|k: int| 0 <= k < n implies #[trigger] times(
                a(i, l),
                product_term(b, c, l, j),
            )(k) == fix_second(h, l)(k) by {
                let x = a(i, l);
                let y = b(l, k);
                let z = c(k, j);
                assert(x * (y * z) == x * y * z) by (nonlinear_arith);
            }
            lemma_sum_congruence(
                times(a(i, l), product_term(b, c, l, j)),
                fix_second(h, l),
                n,
            );
        }
        lemma_sum_congruence(product_term(a, bc, i, j), column_sums(h, n), n);
    }
}

/// Multiplying by the identity on the right changes nothing.
pub proof fn lemma_product_with_one(a: spec_fn(int, int) -> int, n: nat)
    ensures
        same_entries(matrix_product(a, matrix_one(), n), a, n),
        same_entries(matrix_product(matrix_one(), a, n), a, n),
{
    assert forall|i: int, j: int| 0 <= i < n && 0 <= j < n implies #[trigger] matrix_product(
        a,
        matrix_one(),
        n,
    )(i, j) == a(i, j) by {
        let f = product_term(a, matrix_one(), i, j);
        assert forall|k: int| 0 <= k < n && k != j implies #[trigger] f(k) == 0 by {
            assert(a(i, k) * 0 == 0) by (nonlinear_arith);
        }
        lemma_sum_of_one_term(f, j, n);
        assert(a(i, j) * 1 == a(i, j)) by (nonlinear_arith);
    }
    assert forall|i: int, j: int| 0 <= i < n && 0 <= j < n implies #[trigger] matrix_product(
        matrix_one(),
        a,
        n,
    )(i, j) == a(i, j) by {
        let f = product_term(matrix_one(), a, i, j);
        assert forall|k: int| 0 <= k < n && k != i implies #[trigger] f(k) == 0 by {
            assert(0 * a(k, j) == 0) by (nonlinear_arith);
        }
        lemma_sum_of_one_term(f, i, n);
        assert(1 * a(i, j) == a(i, j)) by (nonlinear_arith);
    }
}

/// Powers of matrices with the same entries have the same entries.
pub proof fn lemma_power_congruence(
    a: spec_fn(int, int) -> int,
    a2: spec_fn(int, int) -> int,
    e: nat,
    n: nat,
)
    requires
        same_entries(a, a2, n),
    ensures
        same_entries(matrix_power(a, e, n), matrix_power(a2, e, n), n),
    decreases e,
{
    if e > 0 {
        lemma_power_congruence(a, a2, (e - 1) as nat, n);
        lemma_product_congruence(
            matrix_power(a, (e - 1) as nat, n),
            matrix_power(a2, (e - 1) as nat, n),
            a,
            a2,
            n,
        );
    }
}

/// Having the same entries is transitive.
pub proof fn lemma_same_entries_chain(
    a: spec_fn(int, int) -> int,
    b: spec_fn(int, int) -> int,
    c: spec_fn(int, int) -> int,
    n: nat,
)
    requires
        same_entries(a, b, n),
        same_entries(b, c, n),
    ensures
        same_entries(a, c, n),
{
    assert forall|i: int, j: int| 0 <= i < n && 0 <= j < n implies #[trigger] a(i, j) == c(
        i,
        j,
    ) by {
        assert(a(i, j) == b(i, j));
        assert(b(i, j) == c(i, j));
    }
}

/// The power to a sum of exponents is the product of the powers.
pub proof fn lemma_power_of_sum(a: spec_fn(int, int) -> int, x: nat, y: nat, n: nat)
    ensures
        same_entries(
            matrix_power(a, x + y, n),
            matrix_product(matrix_power(a, x, n), matrix_power(a, y, n), n),
            n,
        ),
    decreases y,
{
    let px = matrix_power(a, x, n);
    if y == 0 {
        lemma_product_with_one(px, n);
        assert(same_entries(px, matrix_product(px, matrix_one(), n), n)) by {
            assert forall|i: int, j: int| 0 <= i < n && 0 <= j < n implies #[trigger] px(i, j)
                == matrix_product(px, matrix_one(), n)(i, j) by {
                assert(matrix_product(px, matrix_one(), n)(i, j) == px(i, j));
            }
        }
    } else {
        let shorter = (y - 1) as nat;
        let py = matrix_power(a, shorter, n);
        lemma_power_of_sum(a, x, shorter, n);
        // a^(x+y) = a^(x+y-1) a = (a^x a^(y-1)) a = a^x (a^(y-1) a) = a^x a^y
        lemma_product_congruence(
            matrix_power(a, x + shorter, n),
            matrix_product(px, py, n),
            a,
            a,
            n,
        );
        lemma_product_associative(px, py, a, n);
        lemma_same_entries_chain(
            matrix_power(a, x + y, n),
            matrix_product(matrix_product(px, py, n), a, n),
            matrix_product(px, matrix_power(a, y, n), n),
            n,
        );
    }
}

/// The power of a square is the power to twice the exponent.
pub proof fn lemma_power_of_square(a: spec_fn(int, int) -> int, k: nat, n: nat)
    ensures
        same_entries(
            matrix_power(matrix_product(a, a, n), k, n),
            matrix_power(a, 2 * k, n),
            n,
        ),
    decreases k,
{
    let square = matrix_product(a, a, n);
    if k > 0 {
        let shorter = (k - 1) as nat;
        lemma_power_of_square(a, shorter, n);
        // (a a)^k = (a a)^(k-1) (a a) = a^(2k-2) (a a) = a^(2k-2) a^2 = a^(2k)
        lemma_power_one(a, n);
        lemma_power_of_sum(a, 1, 1, n);
        lemma_product_congruence(
            matrix_power(a, 1, n),
            a,
            matrix_power(a, 1, n),
            a,
            n,
        );
        lemma_same_entries_chain(
            matrix_power(a, 2, n),
            matrix_product(matrix_power(a, 1, n), matrix_power(a, 1, n), n),
            square,
            n,
        );
        lemma_same_entries_flip(matrix_power(a, 2, n), square, n);
        lemma_product_congruence(
            matrix_power(square, shorter, n),
            matrix_power(a, 2 * shorter, n),
            square,
            matrix_power(a, 2, n),
            n,
        );
        lemma_power_of_sum(a, 2 * shorter, 2, n);
        lemma_same_entries_flip(
            matrix_power(a, 2 * shorter + 2, n),
            matrix_product(matrix_power(a, 2 * shorter, n), matrix_power(a, 2, n), n),
            n,
        );
        lemma_same_entries_chain(
            matrix_power(square, k, n),
            matrix_product(matrix_power(a, 2 * shorter, n), matrix_power(a, 2, n), n),
            matrix_power(a, 2 * k, n),
            n,
        );
    }
}

/// Having the same entries is symmetric.
pub proof fn lemma_same_entries_flip(
    a: spec_fn(int, int) -> int,
    b: spec_fn(int, int) -> int,
    n: nat,
)
    requires
        same_entries(a, b, n),
    ensures
        same_entries(b, a, n),
{
    assert forall|i: int, j: int| 0 <= i < n && 0 <= j < n implies #[trigger] b(i, j) == a(
        i,
        j,
    ) by {
        assert(a(i, j) == b(i, j));
    }
}

/// The first power of a matrix is the matrix.
pub proof fn lemma_power_one(a: spec_fn(int, int) -> int, n: nat)
    ensures
        same_entries(matrix_power(a, 1, n), a, n),
{
    lemma_product_with_one(a, n);
    assert(matrix_power(a, 1, n) == matrix_product(matrix_power(a, 0, n), a, n));
    assert(matrix_power(a, 0, n) == matrix_one());
}

} // verus!

//! Powers of integer matrices add up.

use crate::grid::{
    dot, grid_mul, grid_pow, height, identity_grid, lemma_grid_from, pow_by_squaring, product_cell,
    width,
};
use crate::theory::sums::{
    lemma_power_congruence, lemma_power_of_square, lemma_power_of_sum, lemma_power_one,
    lemma_product_associative, lemma_product_congruence, lemma_product_with_one,
    lemma_same_entries_chain, lemma_same_entries_flip, matrix_one, matrix_power, matrix_product,
    product_term, same_entries, sum,
};
use crate::traits::MatrixNumber;
use vstd::prelude::*;

verus! {

/// Numbers that stand for integers, and whose checked sums and products are the
/// sums and products of those integers whenever they exist.
pub trait ExactInteger: MatrixNumber {
    /// The integer that the number stands for.
    spec fn as_int(self) -> int;

    /// Sums and products are exact, zero and one stand for themselves, and no two
    /// numbers stand for the same integer.
    proof fn lemma_exact(a: Self, b: Self)
        ensures
            a.add_spec(b) matches Some(c) ==> c.as_int() == a.as_int() + b.as_int(),
            a.mul_spec(b) matches Some(c) ==> c.as_int() == a.as_int() * b.as_int(),
            a.as_int() == b.as_int() ==> a == b,
            Self::zero_spec().as_int() == 0,
            Self::one_spec().as_int() == 1,
    ;
}

impl ExactInteger for i8 {
    open spec fn as_int(self) -> int {
        self as int
    }

    proof fn lemma_exact(a: Self, b: Self) {
    }
}

impl ExactInteger for i16 {
    open spec fn as_int(self) -> int {
        self as int
    }

    proof fn lemma_exact(a: Self, b: Self) {
    }
}

impl ExactInteger for i32 {
    open spec fn as_int(self) -> int {
        self as int
    }

    proof fn lemma_exact(a: Self, b: Self) {
    }
}

impl ExactInteger for i64 {
    open spec fn as_int(self) -> int {
        self as int
    }

    proof fn lemma_exact(a: Self, b: Self) {
    }
}

impl ExactInteger for i128 {
    open spec fn as_int(self) -> int {
        self as int
    }

    proof fn lemma_exact(a: Self, b: Self) {
    }
}

impl ExactInteger for isize {
    open spec fn as_int(self) -> int {
        self as int
    }

    proof fn lemma_exact(a: Self, b: Self) {
    }
}

/// The integers that the entries of a grid stand for.
pub open spec fn entries<T: ExactInteger>(g: Seq<Seq<T>>) -> spec_fn(int, int) -> int {
    |i: int, j: int| g[i][j].as_int()
}

/// The grid counts as a square of side `n`.
pub open spec fn square_of_side<T>(g: Seq<Seq<T>>, n: nat) -> bool {
    height(g) == n && width(g) == n
}

/// The grid has exactly `n` rows of `n` entries.
pub open spec fn plain_square<T>(g: Seq<Seq<T>>, n: nat) -> bool {
    g.len() == n && forall|i: int| 0 <= i < n ==> (#[trigger] g[i]).len() == n
}

/// A partial sum of products that exists is the sum of the products of the
/// integers.
pub proof fn lemma_dot_exact<T: ExactInteger>(a: Seq<Seq<T>>, b: Seq<Seq<T>>, i: int, j: int, k: nat)
    ensures
        dot(a, b, i, j, k) matches Some(acc) ==> acc.as_int() == sum(
            product_term(entries(a), entries(b), i, j),
            k,
        ),
    decreases k,
{
    if k == 0 {
        T::lemma_exact(T::zero_spec(), T::zero_spec());
    } else {
        lemma_dot_exact(a, b, i, j, (k - 1) as nat);
        if let Some(acc) = dot(a, b, i, j, (k - 1) as nat) {
            T::lemma_exact(a[i][k - 1], b[k - 1][j]);
            if let Some(p) = a[i][k - 1].mul_spec(b[k - 1][j]) {
                T::lemma_exact(p, acc);
            }
        }
    }
}

/// A product of two squares that exists is a plain square whose entries stand for
/// the entries of the product of the integer matrices.
pub proof fn lemma_product_exact<T: ExactInteger>(a: Seq<Seq<T>>, b: Seq<Seq<T>>, n: nat)
    requires
        square_of_side(a, n),
        square_of_side(b, n),
    ensures
        grid_mul(a, b) matches Ok(c) ==> plain_square(c, n) && square_of_side(c, n)
            && same_entries(entries(c), matrix_product(entries(a), entries(b), n), n),
{
    if let Ok(c) = grid_mul(a, b) {
        lemma_grid_from(n, n, |i: int, j: int| product_cell(a, b, i, j).unwrap());
        assert forall|i: int, j: int| 0 <= i < n && 0 <= j < n implies #[trigger] entries(c)(
            i,
            j,
        ) == matrix_product(entries(a), entries(b), n)(i, j) by {
            lemma_dot_exact(a, b, i, j, n);
            assert(c[i][j] == product_cell(a, b, i, j).unwrap());
            assert(product_cell(a, b, i, j).is_some());
        }
    }
}

/// The identity grid is a plain square whose entries stand for those of the
/// identity matrix.
pub proof fn lemma_identity_exact<T: ExactInteger>(n: nat)
    ensures
        plain_square(identity_grid::<T>(n), n),
        square_of_side(identity_grid::<T>(n), n),
        same_entries(entries(identity_grid::<T>(n)), matrix_one(), n),
{
    lemma_grid_from(
        n,
        n,
        |i: int, j: int|
            if i == j {
                T::one_spec()
            } else {
                T::zero_spec()
            },
    );
    T::lemma_exact(T::zero_spec(), T::one_spec());
}

/// What exponentiation by squaring returns, if anything, is a plain square whose
/// entries stand for the entries of `result` times the power of `square`.
pub proof fn lemma_squaring_exact<T: ExactInteger>(
    result: Seq<Seq<T>>,
    square: Seq<Seq<T>>,
    e: nat,
    n: nat,
)
    requires
        plain_square(result, n),
        square_of_side(result, n),
        square_of_side(square, n),
    ensures
        pow_by_squaring(result, square, e) matches Ok(z) ==> plain_square(z, n) && same_entries(
            entries(z),
            matrix_product(entries(result), matrix_power(entries(square), e, n), n),
            n,
        ),
    decreases e,
{
    let r = entries(result);
    let s = entries(square);
    if e == 0 {
        lemma_product_with_one(r, n);
        lemma_same_entries_flip(matrix_product(r, matrix_one(), n), r, n);
    } else if let Ok(z) = pow_by_squaring(result, square, e) {
        let half = e / 2;
        lemma_product_exact(result, square, n);
        lemma_product_exact(square, square, n);
        let next = if e % 2 == 1 {
            grid_mul(result, square)->Ok_0
        } else {
            result
        };
        let squared = grid_mul(square, square)->Ok_0;
        lemma_squaring_exact(next, squared, half, n);
        // entries(z) = next * squared^half, and squared^half = square^(2 half).
        let s2 = entries(squared);
        lemma_power_congruence(s2, matrix_product(s, s, n), half, n);
        lemma_power_of_square(s, half, n);
        lemma_same_entries_chain(
            matrix_power(s2, half, n),
            matrix_power(matrix_product(s, s, n), half, n),
            matrix_power(s, 2 * half, n),
            n,
        );
        let even_power = matrix_power(s, 2 * half, n);
        if e % 2 == 1 {
            // next = result * square, so next * square^(2 half) = result * square^e.
            lemma_product_congruence(
                entries(next),
                matrix_product(r, s, n),
                matrix_power(s2, half, n),
                even_power,
                n,
            );
            lemma_product_associative(r, s, even_power, n);
            lemma_power_one(s, n);
            lemma_power_of_sum(s, 1, 2 * half, n);
            lemma_same_entries_flip(matrix_power(s, 1, n), s, n);
            lemma_same_entries_refl(even_power, n);
            lemma_product_congruence(s, matrix_power(s, 1, n), even_power, even_power, n);
            lemma_same_entries_flip(
                matrix_power(s, e, n),
                matrix_product(matrix_power(s, 1, n), even_power, n),
                n,
            );
            lemma_same_entries_chain(
                matrix_product(s, even_power, n),
                matrix_product(matrix_power(s, 1, n), even_power, n),
                matrix_power(s, e, n),
                n,
            );
            lemma_same_entries_refl(r, n);
            lemma_product_congruence(
                r,
                r,
                matrix_product(s, even_power, n),
                matrix_power(s, e, n),
                n,
            );
            lemma_same_entries_chain(
                entries(z),
                matrix_product(entries(next), matrix_power(s2, half, n), n),
                matrix_product(matrix_product(r, s, n), even_power, n),
                n,
            );
            lemma_same_entries_chain(
                entries(z),
                matrix_product(matrix_product(r, s, n), even_power, n),
                matrix_product(r, matrix_product(s, even_power, n), n),
                n,
            );
            lemma_same_entries_chain(
                entries(z),
                matrix_product(r, matrix_product(s, even_power, n), n),
                matrix_product(r, matrix_power(s, e, n), n),
                n,
            );
        } else {
            lemma_same_entries_refl(r, n);
            lemma_product_congruence(r, r, matrix_power(s2, half, n), even_power, n);
            lemma_same_entries_chain(
                entries(z),
                matrix_product(r, matrix_power(s2, half, n), n),
                matrix_product(r, matrix_power(s, e, n), n),
                n,
            );
        }
    }
}

/// A matrix has the same entries as itself.
pub proof fn lemma_same_entries_refl(a: spec_fn(int, int) -> int, n: nat)
    ensures
        same_entries(a, a, n),
{
}

/// A power of a square matrix that exists is a plain square whose entries stand
/// for the entries of the power of the integer matrix.
pub proof fn lemma_power_exact<T: ExactInteger>(a: Seq<Seq<T>>, e: nat)
    requires
        height(a) == width(a),
    ensures
        grid_pow(a, e) matches Ok(z) ==> plain_square(z, height(a)) && same_entries(
            entries(z),
            matrix_power(entries(a), e, height(a)),
            height(a),
        ),
{
    let n = height(a);
    if let Ok(z) = grid_pow(a, e) {
        lemma_identity_exact::<T>(n);
        let one = identity_grid::<T>(n);
        lemma_squaring_exact(one, a, e, n);
        let power = matrix_power(entries(a), e, n);
        lemma_same_entries_refl(power, n);
        lemma_product_congruence(entries(one), matrix_one(), power, power, n);
        lemma_product_with_one(power, n);
        lemma_same_entries_chain(
            entries(z),
            matrix_product(entries(one), power, n),
            matrix_product(matrix_one(), power, n),
            n,
        );
        lemma_same_entries_chain(entries(z), matrix_product(matrix_one(), power, n), power, n);
    }
}

/// Plain squares whose entries stand for the same integers are the same grid.
pub proof fn lemma_same_entries_same_grid<T: ExactInteger>(a: Seq<Seq<T>>, b: Seq<Seq<T>>, n: nat)
    requires
        plain_square(a, n),
        plain_square(b, n),
        same_entries(entries(a), entries(b), n),
    ensures
        a == b,
{
    assert forall|i: int| 0 <= i < n implies a[i] == b[i] by {
        assert forall|j: int| 0 <= j < n implies a[i][j] == b[i][j] by {
            assert(entries(a)(i, j) == entries(b)(i, j));
            T::lemma_exact(a[i][j], b[i][j]);
        }
        assert(a[i].len() == n);
        assert(b[i].len() == n);
        assert(a[i] =~= b[i]);
    }
    assert(a =~= b);
}

/// The power law over exact integers: where the powers of a square matrix to
/// `x`, to `y` and to `x + y` exist, and the product of the first two exists,
/// that product is the power to `x + y`.
pub proof fn lemma_power_of_sum_is_product<T: ExactInteger>(a: Seq<Seq<T>>, x: nat, y: nat)
    requires
        grid_pow(a, x) is Ok,
        grid_pow(a, y) is Ok,
        grid_pow(a, x + y) is Ok,
        grid_mul(grid_pow(a, x)->Ok_0, grid_pow(a, y)->Ok_0) is Ok,
    ensures
        grid_pow(a, x + y) == grid_mul(grid_pow(a, x)->Ok_0, grid_pow(a, y)->Ok_0),
{
    let n = height(a);
    let px = grid_pow(a, x)->Ok_0;
    let py = grid_pow(a, y)->Ok_0;
    let pz = grid_pow(a, x + y)->Ok_0;
    let w = grid_mul(px, py)->Ok_0;
    let m = entries(a);
    lemma_power_exact(a, x);
    lemma_power_exact(a, y);
    lemma_power_exact(a, x + y);
    lemma_plain_square_is_square(px, n);
    lemma_plain_square_is_square(py, n);
    lemma_product_exact(px, py, n);
    lemma_product_congruence(
        entries(px),
        matrix_power(m, x, n),
        entries(py),
        matrix_power(m, y, n),
        n,
    );
    lemma_power_of_sum(m, x, y, n);
    lemma_same_entries_flip(
        matrix_power(m, x + y, n),
        matrix_product(matrix_power(m, x, n), matrix_power(m, y, n), n),
        n,
    );
    lemma_same_entries_chain(
        entries(w),
        matrix_product(entries(px), entries(py), n),
        matrix_product(matrix_power(m, x, n), matrix_power(m, y, n), n),
        n,
    );
    lemma_same_entries_chain(
        entries(w),
        matrix_product(matrix_power(m, x, n), matrix_power(m, y, n), n),
        matrix_power(m, x + y, n),
        n,
    );
    lemma_same_entries_flip(entries(pz), matrix_power(m, x + y, n), n);
    lemma_same_entries_chain(entries(w), matrix_power(m, x + y, n), entries(pz), n);
    lemma_same_entries_same_grid(w, pz, n);
}

/// A plain square counts as a square of its side.
pub proof fn lemma_plain_square_is_square<T>(g: Seq<Seq<T>>, n: nat)
    requires
        plain_square(g, n),
    ensures
        square_of_side(g, n),
{
    if n > 0 {
        assert(g[0].len() == n);
    }
}

} // verus!

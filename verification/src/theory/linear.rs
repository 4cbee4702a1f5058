//! Sums and matrix products of fractions.

use crate::theory::field::{
    lemma_add_associates, lemma_add_commutes, lemma_add_zero, lemma_cancel, lemma_constants_ok,
    lemma_distributes, lemma_mul_commutes, lemma_mul_one, lemma_nonzero_product, lemma_norm,
    lemma_q_closed, lemma_raw_congruence, lemma_split, norm, q_neg, q_ok, q_one, q_zero, raw_add,
    same,
};
use crate::theory::fractions::{lemma_reduced, q_add, q_div, q_mul, q_sub, reduced};
use vstd::prelude::*;

verus! {

/// The sum of the fractions `f(0)` up to `f(n - 1)`.
pub open spec fn q_sum(f: spec_fn(int) -> (int, int), n: nat) -> (int, int)
    decreases n,
{
    if n == 0 {
        q_zero()
    } else {
        q_add(q_sum(f, (n - 1) as nat), f(n - 1))
    }
}

/// All of `f(0)` up to `f(n - 1)` are fractions in lowest terms.
pub open spec fn all_ok(f: spec_fn(int) -> (int, int), n: nat) -> bool {
    forall|k: int| 0 <= k < n ==> q_ok(#[trigger] f(k))
}

/// A sum of fractions in lowest terms is in lowest terms.
pub proof fn lemma_sum_ok(f: spec_fn(int) -> (int, int), n: nat)
    requires
        all_ok(f, n),
    ensures
        q_ok(q_sum(f, n)),
    decreases n,
{
    if n == 0 {
        lemma_constants_ok();
    } else {
        lemma_sum_ok(f, (n - 1) as nat);
        assert(q_ok(f(n - 1)));
        lemma_q_closed(q_sum(f, (n - 1) as nat), f(n - 1));
    }
}

/// Functions that agree below `n` have the same sum.
pub proof fn lemma_q_sum_congruence(
    f: spec_fn(int) -> (int, int),
    g: spec_fn(int) -> (int, int),
    n: nat,
)
    requires
        forall|k: int| 0 <= k < n ==> #[trigger] f(k) == g(k),
    ensures
        q_sum(f, n) == q_sum(g, n),
    decreases n,
{
    if n > 0 {
        lemma_q_sum_congruence(f, g, (n - 1) as nat);
        assert(f(n - 1) == g(n - 1));
    }
}

/// Each value of a function multiplied by `c`.
pub open spec fn scaled(f: spec_fn(int) -> (int, int), c: (int, int)) -> spec_fn(int) -> (
    int,
    int,
) {
    |k: int| q_mul(f(k), c)
}

/// The differences of the values of two functions.
pub open spec fn differences(
    f: spec_fn(int) -> (int, int),
    g: spec_fn(int) -> (int, int),
) -> spec_fn(int) -> (int, int) {
    |k: int| q_sub(f(k), g(k))
}

/// A factor can be drawn out of a sum.
pub proof fn lemma_q_sum_scaled(f: spec_fn(int) -> (int, int), c: (int, int), n: nat)
    requires
        all_ok(f, n),
        q_ok(c),
    ensures
        q_sum(scaled(f, c), n) == q_mul(q_sum(f, n), c),
    decreases n,
{
    if n == 0 {
        lemma_mul_one(c);
    } else {
        let shorter = (n - 1) as nat;
        lemma_q_sum_scaled(f, c, shorter);
        lemma_sum_ok(f, shorter);
        assert(q_ok(f(n - 1)));
        lemma_distributes(c, q_sum(f, shorter), f(n - 1));
    }
}

/// The difference of two sums of two fractions each is the sum of the
/// differences.
pub proof fn lemma_interchange(a: (int, int), b: (int, int), c: (int, int), d: (int, int))
    requires
        q_ok(a),
        q_ok(b),
        q_ok(c),
        q_ok(d),
    ensures
        q_sub(q_add(a, b), q_add(c, d)) == q_add(q_sub(a, c), q_sub(b, d)),
{
    // Both sides are the reduced form of fractions of the same ratio.
    let ab = raw_add(a, b);
    let cd = raw_add(c, d);
    let ac = (a.0 * c.1 - c.0 * a.1, a.1 * c.1);
    let bd = (b.0 * d.1 - d.0 * b.1, b.1 * d.1);
    lemma_nonzero_product(a.1, b.1);
    lemma_nonzero_product(c.1, d.1);
    lemma_nonzero_product(a.1, c.1);
    lemma_nonzero_product(b.1, d.1);
    lemma_norm(ab, ab);
    lemma_norm(cd, cd);
    lemma_norm(ac, ac);
    lemma_norm(bd, bd);
    let left_raw = (ab.0 * cd.1 - cd.0 * ab.1, ab.1 * cd.1);
    let right_raw = raw_add(ac, bd);
    lemma_nonzero_product(ab.1, cd.1);
    lemma_nonzero_product(ac.1, bd.1);
    // The left side.
    let nab = norm(ab);
    let ncd = norm(cd);
    lemma_nonzero_product(nab.1, ncd.1);
    lemma_sub_congruence(nab, ab, ncd, cd);
    let left = (nab.0 * ncd.1 - ncd.0 * nab.1, nab.1 * ncd.1);
    lemma_norm(left, left_raw);
    // The right side.
    let nac = norm(ac);
    let nbd = norm(bd);
    lemma_nonzero_product(nac.1, nbd.1);
    lemma_nonzero_product(ac.1, nbd.1);
    lemma_raw_congruence(nac, ac, nbd);
    lemma_raw_congruence(nbd, bd, ac);
    lemma_norm(raw_add(nac, nbd), raw_add(ac, nbd));
    lemma_norm(raw_add(ac, nbd), raw_add(ac, bd));
    // The two fractions: with the common denominator a1 b1 c1 d1 both numerators
    // are a0 b1 c1 d1 + b0 a1 c1 d1 - c0 d1 a1 b1 - d0 c1 a1 b1.
    assert(same(left_raw, right_raw)) by {
        let p = a.1 * b.1;
        let q = c.1 * d.1;
        let r = a.1 * c.1;
        let t = b.1 * d.1;
        assert(p * q == r * t) by (nonlinear_arith)
            requires
                p == a.1 * b.1,
                q == c.1 * d.1,
                r == a.1 * c.1,
                t == b.1 * d.1,
        ;
        let x = a.0 * b.1 + b.0 * a.1;
        let y = c.0 * d.1 + d.0 * c.1;
        let u = a.0 * c.1 - c.0 * a.1;
        let v = b.0 * d.1 - d.0 * b.1;
        // x q - y p == u t + v r
        lemma_split(a.0 * b.1, b.0 * a.1, q);
        lemma_split(c.0 * d.1, d.0 * c.1, p);
        lemma_split(a.0 * c.1, -(c.0 * a.1), t);
        lemma_split(b.0 * d.1, -(d.0 * b.1), r);
        assert((a.0 * b.1) * q == (a.0 * c.1) * t) by (nonlinear_arith)
            requires
                q == c.1 * d.1,
                t == b.1 * d.1,
        ;
        assert((b.0 * a.1) * q == (b.0 * d.1) * r) by (nonlinear_arith)
            requires
                q == c.1 * d.1,
                r == a.1 * c.1,
        ;
        assert((c.0 * d.1) * p == (c.0 * a.1) * t) by (nonlinear_arith)
            requires
                p == a.1 * b.1,
                t == b.1 * d.1,
        ;
        assert((d.0 * c.1) * p == (d.0 * b.1) * r) by (nonlinear_arith)
            requires
                p == a.1 * b.1,
                r == a.1 * c.1,
        ;
        assert((-(c.0 * a.1)) * t == -((c.0 * a.1) * t)) by (nonlinear_arith);
        assert((-(d.0 * b.1)) * r == -((d.0 * b.1) * r)) by (nonlinear_arith);
        assert(x * q - y * p == u * t + v * r);
        let num = x * q - y * p;
        assert(num * (r * t) == (u * t + v * r) * (p * q));
    }
    lemma_norm(left_raw, right_raw);
}

/// Replacing both sides of a difference by fractions of the same ratio gives a
/// difference of the same ratio.
pub proof fn lemma_sub_congruence(x: (int, int), x2: (int, int), y: (int, int), y2: (int, int))
    requires
        same(x, x2),
        same(y, y2),
    ensures
        same(
            (x.0 * y.1 - y.0 * x.1, x.1 * y.1),
            (x2.0 * y2.1 - y2.0 * x2.1, x2.1 * y2.1),
        ),
{
    let a = x.0;
    let b = x.1;
    let c = x2.0;
    let d = x2.1;
    let e = y.0;
    let f = y.1;
    let g = y2.0;
    let h = y2.1;
    // (a f - e b)(d h) == (c h - g d)(b f), given a d == c b and e h == g f.
    assert((a * f) * (d * h) == (c * h) * (b * f)) by (nonlinear_arith)
        requires
            a * d == c * b,
    ;
    assert((e * b) * (d * h) == (g * d) * (b * f)) by (nonlinear_arith)
        requires
            e * h == g * f,
    ;
    lemma_split(a * f, -(e * b), d * h);
    lemma_split(c * h, -(g * d), b * f);
    assert((-(e * b)) * (d * h) == -((e * b) * (d * h))) by (nonlinear_arith);
    assert((-(g * d)) * (b * f) == -((g * d) * (b * f))) by (nonlinear_arith);
}

/// The sum of differences is the difference of the sums.
pub proof fn lemma_q_sum_differences(
    f: spec_fn(int) -> (int, int),
    g: spec_fn(int) -> (int, int),
    n: nat,
)
    requires
        all_ok(f, n),
        all_ok(g, n),
    ensures
        q_sum(differences(f, g), n) == q_sub(q_sum(f, n), q_sum(g, n)),
    decreases n,
{
    if n == 0 {
        lemma_constants_ok();
        lemma_cancel(q_zero());
    } else {
        let shorter = (n - 1) as nat;
        lemma_q_sum_differences(f, g, shorter);
        lemma_sum_ok(f, shorter);
        lemma_sum_ok(g, shorter);
        assert(q_ok(f(n - 1)));
        assert(q_ok(g(n - 1)));
        lemma_interchange(q_sum(f, shorter), f(n - 1), q_sum(g, shorter), g(n - 1));
    }
}

/// A function that is zero below `n` but at `j` has the sum `f(j)`.
pub proof fn lemma_q_sum_of_one_term(f: spec_fn(int) -> (int, int), j: int, n: nat)
    requires
        0 <= j < n,
        q_ok(f(j)),
        forall|k: int| 0 <= k < n && k != j ==> #[trigger] f(k) == q_zero(),
    ensures
        q_sum(f, n) == f(j),
    decreases n,
{
    if j == n - 1 {
        lemma_q_sum_of_zeros(f, (n - 1) as nat);
        lemma_add_zero(f(j));
    } else {
        lemma_q_sum_of_one_term(f, j, (n - 1) as nat);
        assert(f(n - 1) == q_zero());
        lemma_add_zero(f(j));
    }
}

/// A function that is zero below `n` has the sum zero.
pub proof fn lemma_q_sum_of_zeros(f: spec_fn(int) -> (int, int), n: nat)
    requires
        forall|k: int| 0 <= k < n ==> #[trigger] f(k) == q_zero(),
    ensures
        q_sum(f, n) == q_zero(),
    decreases n,
{
    if n > 0 {
        lemma_q_sum_of_zeros(f, (n - 1) as nat);
        assert(f(n - 1) == q_zero());
        lemma_constants_ok();
        lemma_add_zero(q_zero());
    }
}

/// Three factors can be multiplied in any grouping and order.
pub proof fn lemma_mul_rotate(x: (int, int), y: (int, int), z: (int, int))
    requires
        q_ok(x),
        q_ok(y),
        q_ok(z),
    ensures
        q_mul(q_mul(x, y), z) == q_mul(q_mul(x, z), y),
{
    crate::theory::field::lemma_mul_associates(x, y, z);
    crate::theory::field::lemma_mul_associates(x, z, y);
    lemma_mul_commutes(y, z);
}

/// Dividing is multiplying by the inverse.
pub proof fn lemma_div_is_mul(x: (int, int), d: (int, int))
    requires
        q_ok(x),
        q_ok(d),
        d.0 != 0,
    ensures
        q_div(x, d) == q_mul(x, q_div(q_one(), d)),
{
    lemma_constants_ok();
    lemma_q_closed(q_one(), d);
    lemma_nonzero_product(1, d.0);
    let inverse = q_div(q_one(), d);
    lemma_reduced(1 * d.1, 1 * d.0);
    lemma_nonzero_product(x.1, d.0);
    lemma_nonzero_product(x.1, inverse.1);
    lemma_reduced(x.0 * inverse.0, x.1 * inverse.1);
    let product = q_mul(x, inverse);
    // inverse.0 * d.0 == d.1 * inverse.1, and product is x * inverse.
    assert(product.0 * (x.1 * d.0) == (x.0 * d.1) * product.1) by {
        assert(inverse.0 * d.0 == d.1 * inverse.1) by (nonlinear_arith)
            requires
                inverse.0 * (1 * d.0) == (1 * d.1) * inverse.1,
        ;
        let lhs = product.0 * (x.1 * inverse.1);
        assert(lhs * d.0 == (x.0 * inverse.0) * product.1 * d.0);
        assert((product.0 * (x.1 * d.0)) * inverse.1 == (product.0 * (x.1 * inverse.1)) * d.0)
            by (nonlinear_arith);
        assert(((x.0 * inverse.0) * product.1) * d.0 == ((x.0 * product.1) * (inverse.0 * d.0)))
            by (nonlinear_arith);
        assert((x.0 * product.1) * (d.1 * inverse.1) == ((x.0 * d.1) * product.1) * inverse.1)
            by (nonlinear_arith);
        assert((product.0 * (x.1 * d.0)) * inverse.1 == ((x.0 * d.1) * product.1) * inverse.1);
        assert(product.0 * (x.1 * d.0) == (x.0 * d.1) * product.1) by (nonlinear_arith)
            requires
                (product.0 * (x.1 * d.0)) * inverse.1 == ((x.0 * d.1) * product.1) * inverse.1,
                inverse.1 > 0,
        ;
    }
    crate::theory::field::lemma_is(x.0 * d.1, x.1 * d.0, product);
}

/// A product with a difference is the difference of the products.
pub proof fn lemma_mul_difference(r: (int, int), s: (int, int), a: (int, int))
    requires
        q_ok(r),
        q_ok(s),
        q_ok(a),
    ensures
        q_mul(q_sub(r, s), a) == q_sub(q_mul(r, a), q_mul(s, a)),
{
    crate::theory::field::lemma_sub_is_add_neg(r, s);
    lemma_q_closed(s, s);
    lemma_distributes(a, r, q_neg(s));
    crate::theory::field::lemma_neg_mul(s, a);
    lemma_q_closed(r, a);
    lemma_q_closed(s, a);
    crate::theory::field::lemma_sub_is_add_neg(q_mul(r, a), q_mul(s, a));
}

/// Three summands can be added in any order.
pub proof fn lemma_add_rotate(a: (int, int), b: (int, int), c: (int, int))
    requires
        q_ok(a),
        q_ok(b),
        q_ok(c),
    ensures
        q_add(q_add(a, b), c) == q_add(q_add(a, c), b),
{
    lemma_add_associates(a, b, c);
    lemma_add_associates(a, c, b);
    lemma_add_commutes(b, c);
}

/// A summand can be cancelled on both sides of an equation.
pub proof fn lemma_add_cancel(x: (int, int), y: (int, int), z: (int, int))
    requires
        q_ok(x),
        q_ok(y),
        q_ok(z),
        q_add(x, z) == q_add(y, z),
    ensures
        x == y,
{
    // (x + z) - z == x, for every x.
    lemma_q_closed(z, z);
    let m = q_neg(z);
    lemma_add_associates(x, z, m);
    lemma_add_associates(y, z, m);
    crate::theory::field::lemma_sub_is_add_neg(z, z);
    lemma_cancel(z);
    lemma_add_zero(x);
    lemma_add_zero(y);
}

/// Where two functions differ at `i` only, the sum of the one with the value of
/// the other at `i` is the sum of the other with the value of the one.
pub proof fn lemma_q_sum_one_changed(
    f: spec_fn(int) -> (int, int),
    f2: spec_fn(int) -> (int, int),
    i: int,
    n: nat,
)
    requires
        0 <= i < n,
        all_ok(f, n),
        all_ok(f2, n),
        forall|k: int| 0 <= k < n && k != i ==> #[trigger] f2(k) == f(k),
    ensures
        q_add(q_sum(f2, n), f(i)) == q_add(q_sum(f, n), f2(i)),
    decreases n,
{
    let shorter = (n - 1) as nat;
    assert(q_ok(f(i)));
    assert(q_ok(f2(i)));
    assert(q_ok(f(n - 1)));
    assert(q_ok(f2(n - 1)));
    lemma_sum_ok(f, shorter);
    lemma_sum_ok(f2, shorter);
    if i == n - 1 {
        lemma_q_sum_congruence(f2, f, shorter);
        lemma_add_rotate(q_sum(f, shorter), f2(i), f(i));
    } else {
        lemma_q_sum_one_changed(f, f2, i, shorter);
        assert(f2(n - 1) == f(n - 1));
        lemma_add_rotate(q_sum(f2, shorter), f(n - 1), f(i));
        lemma_add_rotate(q_sum(f, shorter), f2(i), f(n - 1));
    }
}

/// Where two functions differ at `i` and `j` only, and the values at the two
/// places have the same sum, the functions have the same sum.
pub proof fn lemma_q_sum_two_changed(
    f: spec_fn(int) -> (int, int),
    f2: spec_fn(int) -> (int, int),
    i: int,
    j: int,
    n: nat,
)
    requires
        0 <= i < n,
        0 <= j < n,
        i != j,
        all_ok(f, n),
        all_ok(f2, n),
        forall|k: int| 0 <= k < n && k != i && k != j ==> #[trigger] f2(k) == f(k),
        q_add(f2(i), f2(j)) == q_add(f(i), f(j)),
    ensures
        q_sum(f2, n) == q_sum(f, n),
{
    // Between the two stands the function that has changed at `i` only.
    let f1 = |k: int|
        if k == i {
            f2(k)
        } else {
            f(k)
        };
    assert(all_ok(f1, n)) by {
        assert forall|k: int| 0 <= k < n implies q_ok(#[trigger] f1(k)) by {
            assert(q_ok(f(k)));
            assert(q_ok(f2(k)));
        }
    }
    assert(forall|k: int| 0 <= k < n && k != i ==> #[trigger] f1(k) == f(k));
    assert forall|k: int| 0 <= k < n && k != j implies #[trigger] f2(k) == f1(k) by {
        if k != i {
            assert(f2(k) == f(k));
        }
    }
    lemma_q_sum_one_changed(f, f1, i, n);
    lemma_q_sum_one_changed(f1, f2, j, n);
    let s = q_sum(f, n);
    let s1 = q_sum(f1, n);
    let s2 = q_sum(f2, n);
    lemma_sum_ok(f, n);
    lemma_sum_ok(f1, n);
    lemma_sum_ok(f2, n);
    assert(q_ok(f(i)) && q_ok(f(j)) && q_ok(f2(i)) && q_ok(f2(j)));
    // s1 + f(i) == s + f2(i), and s2 + f(j) == s1 + f2(j).
    // So (s2 + f(j)) + f(i) == (s1 + f2(j)) + f(i) == (s1 + f(i)) + f2(j)
    //    == (s + f2(i)) + f2(j) == s + (f(i) + f(j)).
    lemma_add_rotate(s1, f2(j), f(i));
    lemma_add_associates(s, f2(i), f2(j));
    lemma_add_associates(s2, f(j), f(i));
    lemma_add_commutes(f(j), f(i));
    lemma_q_closed(f(i), f(j));
    lemma_add_cancel(s2, s, q_add(f(i), f(j)));
}

/// The sums of the values of two functions.
pub open spec fn q_plus(f: spec_fn(int) -> (int, int), g: spec_fn(int) -> (int, int)) -> spec_fn(
    int,
) -> (int, int) {
    |k: int| q_add(f(k), g(k))
}

/// The sum of a sum of functions is the sum of their sums.
pub proof fn lemma_q_sum_plus(f: spec_fn(int) -> (int, int), g: spec_fn(int) -> (int, int), n: nat)
    requires
        all_ok(f, n),
        all_ok(g, n),
    ensures
        q_sum(q_plus(f, g), n) == q_add(q_sum(f, n), q_sum(g, n)),
    decreases n,
{
    if n == 0 {
        lemma_constants_ok();
        lemma_add_zero(q_zero());
    } else {
        let shorter = (n - 1) as nat;
        lemma_q_sum_plus(f, g, shorter);
        lemma_sum_ok(f, shorter);
        lemma_sum_ok(g, shorter);
        let a = q_sum(f, shorter);
        let b = q_sum(g, shorter);
        let x = f(n - 1);
        let y = g(n - 1);
        assert(q_ok(x) && q_ok(y));
        // (a + b) + (x + y) == (a + x) + (b + y)
        lemma_q_closed(a, b);
        lemma_q_closed(x, y);
        lemma_q_closed(a, x);
        lemma_add_associates(q_add(a, b), x, y);
        lemma_add_rotate(a, b, x);
        lemma_add_associates(q_add(a, x), b, y);
    }
}

/// A function of two arguments with its first argument fixed.
pub open spec fn q_fix_first(h: spec_fn(int, int) -> (int, int), k: int) -> spec_fn(int) -> (
    int,
    int,
) {
    |l: int| h(k, l)
}

/// A function of two arguments with its second argument fixed.
pub open spec fn q_fix_second(h: spec_fn(int, int) -> (int, int), l: int) -> spec_fn(int) -> (
    int,
    int,
) {
    |k: int| h(k, l)
}

/// For each first argument, the sum over the first `m` second arguments.
pub open spec fn q_row_sums(h: spec_fn(int, int) -> (int, int), m: nat) -> spec_fn(int) -> (
    int,
    int,
) {
    |k: int| q_sum(q_fix_first(h, k), m)
}

/// For each second argument, the sum over the first `n` first arguments.
pub open spec fn q_column_sums(h: spec_fn(int, int) -> (int, int), n: nat) -> spec_fn(int) -> (
    int,
    int,
) {
    |l: int| q_sum(q_fix_second(h, l), n)
}

/// All values of a function of two arguments below `n` and `m` are fractions in
/// lowest terms.
pub open spec fn all_ok2(h: spec_fn(int, int) -> (int, int), n: nat, m: nat) -> bool {
    forall|k: int, l: int| 0 <= k < n && 0 <= l < m ==> q_ok(#[trigger] h(k, l))
}

/// A double sum can be taken in either order.
pub proof fn lemma_q_sum_exchange(h: spec_fn(int, int) -> (int, int), n: nat, m: nat)
    requires
        all_ok2(h, n, m),
    ensures
        q_sum(q_row_sums(h, m), n) == q_sum(q_column_sums(h, n), m),
    decreases n,
{
    if n == 0 {
        lemma_q_sum_of_zeros(q_column_sums(h, 0), m);
    } else {
        let shorter = (n - 1) as nat;
        lemma_q_sum_exchange(h, shorter, m);
        let cs = q_column_sums(h, shorter);
        let last = q_fix_first(h, n - 1);
        assert(all_ok(last, m)) by {
            assert forall|l: int| 0 <= l < m implies q_ok(#[trigger] last(l)) by {
                assert(q_ok(h(n - 1, l)));
            }
        }
        assert(all_ok(cs, m)) by {
            assert forall|l: int| 0 <= l < m implies q_ok(#[trigger] cs(l)) by {
                assert(all_ok(q_fix_second(h, l), shorter)) by {
                    assert forall|k: int| 0 <= k < shorter implies q_ok(
                        #[trigger] q_fix_second(h, l)(k),
                    ) by {
                        assert(q_ok(h(k, l)));
                    }
                }
                lemma_sum_ok(q_fix_second(h, l), shorter);
            }
        }
        lemma_q_sum_plus(cs, last, m);
        lemma_q_sum_congruence(q_column_sums(h, n), q_plus(cs, last), m);
    }
}

/// The products that make up the entry at `(i, j)` of a product of matrices given
/// by their exact entries.
pub open spec fn qm_terms(
    x: spec_fn(int, int) -> (int, int),
    y: spec_fn(int, int) -> (int, int),
    i: int,
    j: int,
) -> spec_fn(int) -> (int, int) {
    |k: int| q_mul(x(i, k), y(k, j))
}

/// The product of two square matrices of side `n` given by their exact entries.
pub open spec fn qm_mul(
    x: spec_fn(int, int) -> (int, int),
    y: spec_fn(int, int) -> (int, int),
    n: nat,
) -> spec_fn(int, int) -> (int, int) {
    |i: int, j: int| q_sum(qm_terms(x, y, i, j), n)
}

/// The exact entries of the identity matrix.
pub open spec fn qm_one() -> spec_fn(int, int) -> (int, int) {
    |i: int, j: int|
        if i == j {
            q_one()
        } else {
            q_zero()
        }
}

/// Two matrices have the same entries within side `n`.
pub open spec fn qm_same(
    x: spec_fn(int, int) -> (int, int),
    y: spec_fn(int, int) -> (int, int),
    n: nat,
) -> bool {
    forall|i: int, j: int| 0 <= i < n && 0 <= j < n ==> #[trigger] x(i, j) == y(i, j)
}

/// The products of entries in lowest terms are in lowest terms, and so are the
/// entries of the product.
pub proof fn lemma_qm_ok(
    x: spec_fn(int, int) -> (int, int),
    y: spec_fn(int, int) -> (int, int),
    n: nat,
)
    requires
        all_ok2(x, n, n),
        all_ok2(y, n, n),
    ensures
        all_ok2(qm_mul(x, y, n), n, n),
        forall|i: int, j: int|
            0 <= i < n && 0 <= j < n ==> all_ok(#[trigger] qm_terms(x, y, i, j), n),
{
    assert forall|i: int, j: int| 0 <= i < n && 0 <= j < n implies all_ok(
        #[trigger] qm_terms(x, y, i, j),
        n,
    ) by {
        assert forall|k: int| 0 <= k < n implies q_ok(#[trigger] qm_terms(x, y, i, j)(k)) by {
            assert(q_ok(x(i, k)));
            assert(q_ok(y(k, j)));
            lemma_q_closed(x(i, k), y(k, j));
        }
    }
    assert forall|i: int, j: int| 0 <= i < n && 0 <= j < n implies q_ok(
        #[trigger] qm_mul(x, y, n)(i, j),
    ) by {
        assert(all_ok(qm_terms(x, y, i, j), n));
        lemma_sum_ok(qm_terms(x, y, i, j), n);
    }
}

/// Products of matrices with the same entries have the same entries.
pub proof fn lemma_qm_congruence(
    x: spec_fn(int, int) -> (int, int),
    x2: spec_fn(int, int) -> (int, int),
    y: spec_fn(int, int) -> (int, int),
    y2: spec_fn(int, int) -> (int, int),
    n: nat,
)
    requires
        qm_same(x, x2, n),
        qm_same(y, y2, n),
    ensures
        qm_same(qm_mul(x, y, n), qm_mul(x2, y2, n), n),
{
    assert forall|i: int, j: int| 0 <= i < n && 0 <= j < n implies #[trigger] qm_mul(x, y, n)(
        i,
        j,
    ) == qm_mul(x2, y2, n)(i, j) by {
        assert forall|k: int| 0 <= k < n implies #[trigger] qm_terms(x, y, i, j)(k) == qm_terms(
            x2,
            y2,
            i,
            j,
        )(k) by {
            assert(x(i, k) == x2(i, k));
            assert(y(k, j) == y2(k, j));
        }
        lemma_q_sum_congruence(qm_terms(x, y, i, j), qm_terms(x2, y2, i, j), n);
    }
}

/// The triple products that make up one entry of a product of three matrices.
pub open spec fn qm_triple(
    x: spec_fn(int, int) -> (int, int),
    y: spec_fn(int, int) -> (int, int),
    z: spec_fn(int, int) -> (int, int),
    i: int,
    j: int,
) -> spec_fn(int, int) -> (int, int) {
    |k: int, l: int| q_mul(q_mul(x(i, l), y(l, k)), z(k, j))
}

/// The product of matrices is associative.
pub proof fn lemma_qm_associative(
    x: spec_fn(int, int) -> (int, int),
    y: spec_fn(int, int) -> (int, int),
    z: spec_fn(int, int) -> (int, int),
    n: nat,
)
    requires
        all_ok2(x, n, n),
        all_ok2(y, n, n),
        all_ok2(z, n, n),
    ensures
        qm_same(qm_mul(qm_mul(x, y, n), z, n), qm_mul(x, qm_mul(y, z, n), n), n),
{
    let xy = qm_mul(x, y, n);
    let yz = qm_mul(y, z, n);
    lemma_qm_ok(x, y, n);
    lemma_qm_ok(y, z, n);
    assert forall|i: int, j: int| 0 <= i < n && 0 <= j < n implies #[trigger] qm_mul(xy, z, n)(
        i,
        j,
    ) == qm_mul(x, yz, n)(i, j) by {
        let h = qm_triple(x, y, z, i, j);
        assert(all_ok2(h, n, n)) by {
            assert forall|k: int, l: int| 0 <= k < n && 0 <= l < n implies q_ok(
                #[trigger] h(k, l),
            ) by {
                assert(q_ok(x(i, l)));
                assert(q_ok(y(l, k)));
                assert(q_ok(z(k, j)));
                lemma_q_closed(x(i, l), y(l, k));
                lemma_q_closed(q_mul(x(i, l), y(l, k)), z(k, j));
            }
        }
        assert forall|k: int| 0 <= k < n implies #[trigger] qm_terms(xy, z, i, j)(k)
            == q_row_sums(h, n)(k) by {
            assert(all_ok(qm_terms(x, y, i, k), n));
            assert(q_ok(z(k, j)));
            lemma_q_sum_scaled(qm_terms(x, y, i, k), z(k, j), n);
            lemma_q_sum_congruence(
                scaled(qm_terms(x, y, i, k), z(k, j)),
                q_fix_first(h, k),
                n,
            );
        }
        lemma_q_sum_congruence(qm_terms(xy, z, i, j), q_row_sums(h, n), n);
        lemma_q_sum_exchange(h, n, n);
        assert forall|l: int| 0 <= l < n implies #[trigger] qm_terms(x, yz, i, j)(l)
            == q_column_sums(h, n)(l) by {
            assert(all_ok(qm_terms(y, z, l, j), n));
            assert(q_ok(x(i, l)));
            lemma_q_sum_scaled(qm_terms(y, z, l, j), x(i, l), n);
            lemma_sum_ok(qm_terms(y, z, l, j), n);
            lemma_mul_commutes(x(i, l), q_sum(qm_terms(y, z, l, j), n));
            assert forall|k: int| 0 <= k < n implies #[trigger] scaled(
                qm_terms(y, z, l, j),
                x(i, l),
            )(k) == q_fix_second(h, l)(k) by {
                assert(q_ok(y(l, k)));
                assert(q_ok(z(k, j)));
                lemma_q_closed(y(l, k), z(k, j));
                lemma_mul_commutes(q_mul(y(l, k), z(k, j)), x(i, l));
                crate::theory::field::lemma_mul_associates(x(i, l), y(l, k), z(k, j));
            }
            lemma_q_sum_congruence(
                scaled(qm_terms(y, z, l, j), x(i, l)),
                q_fix_second(h, l),
                n,
            );
        }
        lemma_q_sum_congruence(qm_terms(x, yz, i, j), q_column_sums(h, n), n);
    }
}

/// Multiplying by the identity changes nothing.
pub proof fn lemma_qm_one(x: spec_fn(int, int) -> (int, int), n: nat)
    requires
        all_ok2(x, n, n),
    ensures
        qm_same(qm_mul(x, qm_one(), n), x, n),
        qm_same(qm_mul(qm_one(), x, n), x, n),
{
    lemma_constants_ok();
    assert forall|i: int, j: int| 0 <= i < n && 0 <= j < n implies #[trigger] qm_mul(
        x,
        qm_one(),
        n,
    )(i, j) == x(i, j) by {
        let f = qm_terms(x, qm_one(), i, j);
        assert(q_ok(x(i, j)));
        assert forall|k: int| 0 <= k < n && k != j implies #[trigger] f(k) == q_zero() by {
            assert(q_ok(x(i, k)));
            lemma_mul_one(x(i, k));
        }
        lemma_mul_one(x(i, j));
        lemma_q_sum_of_one_term(f, j, n);
    }
    assert forall|i: int, j: int| 0 <= i < n && 0 <= j < n implies #[trigger] qm_mul(
        qm_one(),
        x,
        n,
    )(i, j) == x(i, j) by {
        let f = qm_terms(qm_one(), x, i, j);
        assert(q_ok(x(i, j)));
        assert forall|k: int| 0 <= k < n && k != i implies #[trigger] f(k) == q_zero() by {
            assert(q_ok(x(k, j)));
            lemma_mul_one(x(k, j));
        }
        lemma_mul_one(x(i, j));
        lemma_q_sum_of_one_term(f, i, n);
    }
}

/// A left inverse of a left inverse is the matrix itself: if `m` times `r` and
/// `r` times `a` are the identity, then `a` times `r` is the identity too.
pub proof fn lemma_left_inverse_is_right_inverse(
    m: spec_fn(int, int) -> (int, int),
    r: spec_fn(int, int) -> (int, int),
    a: spec_fn(int, int) -> (int, int),
    n: nat,
)
    requires
        all_ok2(m, n, n),
        all_ok2(r, n, n),
        all_ok2(a, n, n),
        qm_same(qm_mul(m, r, n), qm_one(), n),
        qm_same(qm_mul(r, a, n), qm_one(), n),
    ensures
        qm_same(qm_mul(a, r, n), qm_one(), n),
{
    // a = 1 a = (m r) a = m (r a) = m 1 = m.
    lemma_qm_one(a, n);
    lemma_qm_one(m, n);
    lemma_qm_associative(m, r, a, n);
    assert(qm_same(a, a, n));
    assert(qm_same(m, m, n));
    assert(qm_same(r, r, n));
    lemma_qm_congruence(qm_mul(m, r, n), qm_one(), a, a, n);
    lemma_qm_congruence(m, m, qm_mul(r, a, n), qm_one(), n);
    assert(qm_same(a, m, n)) by {
        assert forall|i: int, j: int| 0 <= i < n && 0 <= j < n implies #[trigger] a(i, j) == m(
            i,
            j,
        ) by {
            assert(qm_mul(qm_one(), a, n)(i, j) == a(i, j));
            assert(qm_mul(qm_mul(m, r, n), a, n)(i, j) == qm_mul(qm_one(), a, n)(i, j));
            assert(qm_mul(qm_mul(m, r, n), a, n)(i, j) == qm_mul(m, qm_mul(r, a, n), n)(i, j));
            assert(qm_mul(m, qm_mul(r, a, n), n)(i, j) == qm_mul(m, qm_one(), n)(i, j));
            assert(qm_mul(m, qm_one(), n)(i, j) == m(i, j));
        }
    }
    lemma_qm_congruence(a, m, r, r, n);
    assert forall|i: int, j: int| 0 <= i < n && 0 <= j < n implies #[trigger] qm_mul(a, r, n)(
        i,
        j,
    ) == qm_one()(i, j) by {
        assert(qm_mul(a, r, n)(i, j) == qm_mul(m, r, n)(i, j));
        assert(qm_mul(m, r, n)(i, j) == qm_one()(i, j));
    }
}

/// The power of a square matrix of side `n` given by its exact entries: the
/// identity multiplied `e` times by the matrix.
pub open spec fn qm_power(x: spec_fn(int, int) -> (int, int), e: nat, n: nat) -> spec_fn(
    int,
    int,
) -> (int, int)
    decreases e,
{
    if e == 0 {
        qm_one()
    } else {
        qm_mul(qm_power(x, (e - 1) as nat, n), x, n)
    }
}

/// The entries of a power of a matrix with entries in lowest terms are in lowest
/// terms.
pub proof fn lemma_qm_power_ok(x: spec_fn(int, int) -> (int, int), e: nat, n: nat)
    requires
        all_ok2(x, n, n),
    ensures
        all_ok2(qm_power(x, e, n), n, n),
    decreases e,
{
    lemma_constants_ok();
    if e > 0 {
        lemma_qm_power_ok(x, (e - 1) as nat, n);
        lemma_qm_ok(qm_power(x, (e - 1) as nat, n), x, n);
    }
}

/// Having the same entries is transitive.
pub proof fn lemma_qm_chain(
    x: spec_fn(int, int) -> (int, int),
    y: spec_fn(int, int) -> (int, int),
    z: spec_fn(int, int) -> (int, int),
    n: nat,
)
    requires
        qm_same(x, y, n),
        qm_same(y, z, n),
    ensures
        qm_same(x, z, n),
{
    assert forall|i: int, j: int| 0 <= i < n && 0 <= j < n implies #[trigger] x(i, j) == z(
        i,
        j,
    ) by {
        assert(x(i, j) == y(i, j));
        assert(y(i, j) == z(i, j));
    }
}

/// Having the same entries is symmetric.
pub proof fn lemma_qm_flip(
    x: spec_fn(int, int) -> (int, int),
    y: spec_fn(int, int) -> (int, int),
    n: nat,
)
    requires
        qm_same(x, y, n),
    ensures
        qm_same(y, x, n),
{
    assert forall|i: int, j: int| 0 <= i < n && 0 <= j < n implies #[trigger] y(i, j) == x(
        i,
        j,
    ) by {
        assert(x(i, j) == y(i, j));
    }
}

/// A matrix has the same entries as itself.
pub proof fn lemma_qm_refl(x: spec_fn(int, int) -> (int, int), n: nat)
    ensures
        qm_same(x, x, n),
{
}

/// Powers of matrices with the same entries have the same entries.
pub proof fn lemma_qm_power_congruence(
    x: spec_fn(int, int) -> (int, int),
    x2: spec_fn(int, int) -> (int, int),
    e: nat,
    n: nat,
)
    requires
        qm_same(x, x2, n),
    ensures
        qm_same(qm_power(x, e, n), qm_power(x2, e, n), n),
    decreases e,
{
    if e > 0 {
        lemma_qm_power_congruence(x, x2, (e - 1) as nat, n);
        lemma_qm_congruence(
            qm_power(x, (e - 1) as nat, n),
            qm_power(x2, (e - 1) as nat, n),
            x,
            x2,
            n,
        );
    }
}

/// The first power of a matrix is the matrix.
pub proof fn lemma_qm_power_one(x: spec_fn(int, int) -> (int, int), n: nat)
    requires
        all_ok2(x, n, n),
    ensures
        qm_same(qm_power(x, 1, n), x, n),
{
    lemma_qm_one(x, n);
    assert(qm_power(x, 1, n) == qm_mul(qm_power(x, 0, n), x, n));
    assert(qm_power(x, 0, n) == qm_one());
}

/// The power to a sum of exponents is the product of the powers.
pub proof fn lemma_qm_power_of_sum(x: spec_fn(int, int) -> (int, int), a: nat, b: nat, n: nat)
    requires
        all_ok2(x, n, n),
    ensures
        qm_same(
            qm_power(x, a + b, n),
            qm_mul(qm_power(x, a, n), qm_power(x, b, n), n),
            n,
        ),
    decreases b,
{
    let pa = qm_power(x, a, n);
    lemma_qm_power_ok(x, a, n);
    if b == 0 {
        lemma_qm_one(pa, n);
        lemma_qm_flip(qm_mul(pa, qm_one(), n), pa, n);
    } else {
        let shorter = (b - 1) as nat;
        let pb = qm_power(x, shorter, n);
        lemma_qm_power_ok(x, shorter, n);
        lemma_qm_power_of_sum(x, a, shorter, n);
        lemma_qm_refl(x, n);
        lemma_qm_congruence(qm_power(x, a + shorter, n), qm_mul(pa, pb, n), x, x, n);
        lemma_qm_associative(pa, pb, x, n);
        lemma_qm_chain(
            qm_power(x, a + b, n),
            qm_mul(qm_mul(pa, pb, n), x, n),
            qm_mul(pa, qm_power(x, b, n), n),
            n,
        );
    }
}

/// The power of a square is the power to twice the exponent.
pub proof fn lemma_qm_power_of_square(x: spec_fn(int, int) -> (int, int), k: nat, n: nat)
    requires
        all_ok2(x, n, n),
    ensures
        qm_same(qm_power(qm_mul(x, x, n), k, n), qm_power(x, 2 * k, n), n),
    decreases k,
{
    let square = qm_mul(x, x, n);
    if k > 0 {
        let shorter = (k - 1) as nat;
        lemma_qm_power_of_square(x, shorter, n);
        lemma_qm_power_one(x, n);
        lemma_qm_power_of_sum(x, 1, 1, n);
        lemma_qm_congruence(qm_power(x, 1, n), x, qm_power(x, 1, n), x, n);
        lemma_qm_chain(
            qm_power(x, 2, n),
            qm_mul(qm_power(x, 1, n), qm_power(x, 1, n), n),
            square,
            n,
        );
        lemma_qm_flip(qm_power(x, 2, n), square, n);
        lemma_qm_congruence(
            qm_power(square, shorter, n),
            qm_power(x, 2 * shorter, n),
            square,
            qm_power(x, 2, n),
            n,
        );
        lemma_qm_power_of_sum(x, 2 * shorter, 2, n);
        lemma_qm_flip(
            qm_power(x, 2 * shorter + 2, n),
            qm_mul(qm_power(x, 2 * shorter, n), qm_power(x, 2, n), n),
            n,
        );
        lemma_qm_chain(
            qm_power(square, k, n),
            qm_mul(qm_power(x, 2 * shorter, n), qm_power(x, 2, n), n),
            qm_power(x, 2 * k, n),
            n,
        );
    }
}

} // verus!

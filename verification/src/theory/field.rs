//! The fractions are a field.

use crate::theory::fractions::{
    lemma_reduced, lemma_reduced_is_unique, lemma_same_ratio, lowest, q_add, q_div, q_mul, q_sub,
    reduced,
};
use vstd::prelude::*;

verus! {

/// Two fractions stand for the same ratio.
pub open spec fn same(a: (int, int), b: (int, int)) -> bool {
    a.0 * b.1 == b.0 * a.1
}

/// The fraction zero.
pub open spec fn q_zero() -> (int, int) {
    (0, 1)
}

/// The fraction one.
pub open spec fn q_one() -> (int, int) {
    (1, 1)
}

/// The negated fraction.
pub open spec fn q_neg(x: (int, int)) -> (int, int) {
    (-x.0, x.1)
}

/// A fraction in lowest terms.
pub open spec fn q_ok(x: (int, int)) -> bool {
    lowest(x.0, x.1)
}

/// Zero and one are fractions in lowest terms.
pub proof fn lemma_constants_ok()
    ensures
        q_ok(q_zero()),
        q_ok(q_one()),
{
    crate::theory::fractions::lemma_coprime_to_one(0);
    crate::theory::fractions::lemma_coprime_to_one(1);
}

/// Sums, differences, products and quotients of fractions in lowest terms are in
/// lowest terms.
pub proof fn lemma_q_closed(x: (int, int), y: (int, int))
    requires
        q_ok(x),
        q_ok(y),
    ensures
        q_ok(q_add(x, y)),
        q_ok(q_sub(x, y)),
        q_ok(q_mul(x, y)),
        y.0 != 0 ==> q_ok(q_div(x, y)),
        q_ok(q_neg(x)),
        q_ok(q_zero()),
        q_ok(q_one()),
{
    assert(x.1 * y.1 != 0) by (nonlinear_arith)
        requires
            x.1 > 0,
            y.1 > 0,
    ;
    lemma_reduced(x.0 * y.1 + y.0 * x.1, x.1 * y.1);
    lemma_reduced(x.0 * y.1 - y.0 * x.1, x.1 * y.1);
    lemma_reduced(x.0 * y.0, x.1 * y.1);
    if y.0 != 0 {
        assert(x.1 * y.0 != 0) by (nonlinear_arith)
            requires
                x.1 > 0,
                y.0 != 0,
        ;
        lemma_reduced(x.0 * y.1, x.1 * y.0);
    }
    crate::theory::fractions::lemma_coprime_to_one(0);
    crate::theory::fractions::lemma_coprime_to_one(1);
    assert(q_ok(q_neg(x))) by {
        assert forall|d: int| d > 1 implies !(#[trigger] crate::theory::fractions::divides(d, -x.0)
            && crate::theory::fractions::divides(d, x.1)) by {
            if crate::theory::fractions::divides(d, -x.0) && crate::theory::fractions::divides(d, x.1) {
                crate::theory::fractions::lemma_divides_combination(d, -x.0, x.1, -1, 0);
                assert((-x.0) * (-1) + x.1 * 0 == x.0) by (nonlinear_arith);
                assert(crate::theory::fractions::divides(d, x.0));
            }
        }
    }
}

/// The reduced form of `n / d` is the fraction `p` in lowest terms when both stand
/// for the same ratio.
pub proof fn lemma_is(n: int, d: int, p: (int, int))
    requires
        d != 0,
        q_ok(p),
        p.0 * d == n * p.1,
    ensures
        reduced(n, d) == p,
{
    lemma_reduced_is_unique(n, d, p);
}

/// Addition is commutative.
pub proof fn lemma_add_commutes(x: (int, int), y: (int, int))
    requires
        q_ok(x),
        q_ok(y),
    ensures
        q_add(x, y) == q_add(y, x),
{
    assert(x.0 * y.1 + y.0 * x.1 == y.0 * x.1 + x.0 * y.1);
    assert(x.1 * y.1 == y.1 * x.1) by (nonlinear_arith);
}

/// Multiplication is commutative.
pub proof fn lemma_mul_commutes(x: (int, int), y: (int, int))
    requires
        q_ok(x),
        q_ok(y),
    ensures
        q_mul(x, y) == q_mul(y, x),
{
    assert(x.0 * y.0 == y.0 * x.0) by (nonlinear_arith);
    assert(x.1 * y.1 == y.1 * x.1) by (nonlinear_arith);
}

/// Adding zero changes nothing.
pub proof fn lemma_add_zero(x: (int, int))
    requires
        q_ok(x),
    ensures
        q_add(x, q_zero()) == x,
        q_add(q_zero(), x) == x,
        q_sub(x, q_zero()) == x,
{
    assert(x.0 * 1 + 0 * x.1 == x.0) by (nonlinear_arith);
    assert(x.0 * 1 - 0 * x.1 == x.0) by (nonlinear_arith);
    assert(0 * x.1 + x.0 * 1 == x.0) by (nonlinear_arith);
    assert(x.1 * 1 == x.1 && 1 * x.1 == x.1) by (nonlinear_arith);
    crate::theory::fractions::lemma_reduced_of_lowest(x.0, x.1);
}

/// Multiplying by one changes nothing, and multiplying by zero gives zero.
pub proof fn lemma_mul_one(x: (int, int))
    requires
        q_ok(x),
    ensures
        q_mul(x, q_one()) == x,
        q_mul(q_one(), x) == x,
        q_mul(x, q_zero()) == q_zero(),
        q_mul(q_zero(), x) == q_zero(),
        q_div(x, q_one()) == x,
{
    assert(x.0 * 1 == x.0 && 1 * x.0 == x.0) by (nonlinear_arith);
    assert(x.1 * 1 == x.1 && 1 * x.1 == x.1) by (nonlinear_arith);
    assert(x.0 * 0 == 0 && 0 * x.0 == 0) by (nonlinear_arith);
    crate::theory::fractions::lemma_reduced_of_lowest(x.0, x.1);
    lemma_q_closed(x, x);
    lemma_is(0, x.1 * 1, q_zero());
    lemma_is(0, 1 * x.1, q_zero());
}

/// A fraction minus itself is zero, and a fraction that is not zero divided by
/// itself is one.
pub proof fn lemma_cancel(x: (int, int))
    requires
        q_ok(x),
    ensures
        q_sub(x, x) == q_zero(),
        x.0 != 0 ==> q_div(x, x) == q_one(),
{
    lemma_q_closed(x, x);
    assert(x.1 * x.1 != 0) by (nonlinear_arith)
        requires
            x.1 > 0,
    ;
    assert(x.0 * x.1 - x.0 * x.1 == 0);
    lemma_is(0, x.1 * x.1, q_zero());
    if x.0 != 0 {
        assert(x.1 * x.0 != 0) by (nonlinear_arith)
            requires
                x.1 > 0,
                x.0 != 0,
        ;
        assert(1 * (x.1 * x.0) == (x.0 * x.1) * 1) by (nonlinear_arith);
        lemma_is(x.0 * x.1, x.1 * x.0, q_one());
    }
}

/// A sum of three fractions, computed in one step from fractions that need not
/// be in lowest terms.
pub open spec fn raw_add(x: (int, int), y: (int, int)) -> (int, int) {
    (x.0 * y.1 + y.0 * x.1, x.1 * y.1)
}

/// A product of fractions that need not be in lowest terms.
pub open spec fn raw_mul(x: (int, int), y: (int, int)) -> (int, int) {
    (x.0 * y.0, x.1 * y.1)
}

/// The reduced form of a fraction given as a pair.
pub open spec fn norm(p: (int, int)) -> (int, int) {
    reduced(p.0, p.1)
}

/// The reduced form stands for the same ratio, and fractions of the same ratio
/// have the same reduced form.
pub proof fn lemma_norm(p: (int, int), q: (int, int))
    requires
        p.1 != 0,
        q.1 != 0,
    ensures
        q_ok(norm(p)),
        same(norm(p), p),
        same(p, q) ==> norm(p) == norm(q),
{
    lemma_reduced(p.0, p.1);
    if same(p, q) {
        lemma_same_ratio(p.0, p.1, q.0, q.1);
    }
}

/// Replacing a summand or a factor by a fraction of the same ratio gives a result
/// of the same ratio.
pub proof fn lemma_raw_congruence(x: (int, int), x2: (int, int), y: (int, int))
    requires
        same(x, x2),
    ensures
        same(raw_add(x, y), raw_add(x2, y)),
        same(raw_add(y, x), raw_add(y, x2)),
        same(raw_mul(x, y), raw_mul(x2, y)),
        same(raw_mul(y, x), raw_mul(y, x2)),
{
    let a = x.0;
    let b = x.1;
    let c = x2.0;
    let d = x2.1;
    let e = y.0;
    let f = y.1;
    // (a f + e b)(d f) == (c f + e d)(b f), term by term.
    assert((a * f) * (d * f) == (c * f) * (b * f)) by (nonlinear_arith)
        requires
            a * d == c * b,
    ;
    assert((e * b) * (d * f) == (e * d) * (b * f)) by (nonlinear_arith);
    lemma_split(a * f, e * b, d * f);
    lemma_split(c * f, e * d, b * f);
    // (e b + a f)(f d) == (e d + c f)(f b), term by term.
    assert((a * f) * (f * d) == (c * f) * (f * b)) by (nonlinear_arith)
        requires
            a * d == c * b,
    ;
    assert((e * b) * (f * d) == (e * d) * (f * b)) by (nonlinear_arith);
    lemma_split(e * b, a * f, f * d);
    lemma_split(e * d, c * f, f * b);
    assert((a * e) * (d * f) == (c * e) * (b * f)) by (nonlinear_arith)
        requires
            a * d == c * b,
    ;
    assert((e * a) * (f * d) == (e * c) * (f * b)) by (nonlinear_arith)
        requires
            a * d == c * b,
    ;
}

/// A product with a sum is the sum of the products.
pub proof fn lemma_split(x: int, y: int, z: int)
    ensures
        (x + y) * z == x * z + y * z,
        z * (x + y) == z * x + z * y,
{
    assert((x + y) * z == x * z + y * z) by (nonlinear_arith);
    assert(z * (x + y) == z * x + z * y) by (nonlinear_arith);
}

/// Denominators that are not zero have a product that is not zero.
pub proof fn lemma_nonzero_product(a: int, b: int)
    requires
        a != 0,
        b != 0,
    ensures
        a * b != 0,
{
    assert(a * b != 0) by (nonlinear_arith)
        requires
            a != 0,
            b != 0,
    ;
}

/// Addition is associative.
pub proof fn lemma_add_associates(x: (int, int), y: (int, int), z: (int, int))
    requires
        q_ok(x),
        q_ok(y),
        q_ok(z),
    ensures
        q_add(q_add(x, y), z) == q_add(x, q_add(y, z)),
{
    lemma_nonzero_product(x.1, y.1);
    lemma_nonzero_product(y.1, z.1);
    let xy = raw_add(x, y);
    let yz = raw_add(y, z);
    lemma_norm(xy, xy);
    lemma_norm(yz, yz);
    lemma_raw_congruence(norm(xy), xy, z);
    lemma_raw_congruence(norm(yz), yz, x);
    lemma_nonzero_product(norm(xy).1, z.1);
    lemma_nonzero_product(xy.1, z.1);
    lemma_nonzero_product(x.1, norm(yz).1);
    lemma_nonzero_product(x.1, yz.1);
    lemma_norm(raw_add(norm(xy), z), raw_add(xy, z));
    lemma_norm(raw_add(x, norm(yz)), raw_add(x, yz));
    assert(raw_add(xy, z) == raw_add(x, yz)) by {
        let a = x.0;
        let b = x.1;
        let c = y.0;
        let d = y.1;
        let e = z.0;
        let f = z.1;
        lemma_split(a * d, c * b, f);
        lemma_split(c * f, e * d, b);
        assert((a * d) * f == a * (d * f)) by (nonlinear_arith);
        assert((c * b) * f == (c * f) * b) by (nonlinear_arith);
        assert(e * (b * d) == (e * d) * b) by (nonlinear_arith);
        assert((b * d) * f == b * (d * f)) by (nonlinear_arith);
    }
}

/// Multiplication is associative.
pub proof fn lemma_mul_associates(x: (int, int), y: (int, int), z: (int, int))
    requires
        q_ok(x),
        q_ok(y),
        q_ok(z),
    ensures
        q_mul(q_mul(x, y), z) == q_mul(x, q_mul(y, z)),
{
    lemma_nonzero_product(x.1, y.1);
    lemma_nonzero_product(y.1, z.1);
    let xy = raw_mul(x, y);
    let yz = raw_mul(y, z);
    lemma_norm(xy, xy);
    lemma_norm(yz, yz);
    lemma_raw_congruence(norm(xy), xy, z);
    lemma_raw_congruence(norm(yz), yz, x);
    lemma_nonzero_product(norm(xy).1, z.1);
    lemma_nonzero_product(xy.1, z.1);
    lemma_nonzero_product(x.1, norm(yz).1);
    lemma_nonzero_product(x.1, yz.1);
    lemma_norm(raw_mul(norm(xy), z), raw_mul(xy, z));
    lemma_norm(raw_mul(x, norm(yz)), raw_mul(x, yz));
    assert(raw_mul(xy, z) == raw_mul(x, yz)) by {
        assert((x.0 * y.0) * z.0 == x.0 * (y.0 * z.0)) by (nonlinear_arith);
        assert((x.1 * y.1) * z.1 == x.1 * (y.1 * z.1)) by (nonlinear_arith);
    }
}

/// Multiplication distributes over addition.
pub proof fn lemma_distributes(x: (int, int), y: (int, int), z: (int, int))
    requires
        q_ok(x),
        q_ok(y),
        q_ok(z),
    ensures
        q_mul(x, q_add(y, z)) == q_add(q_mul(x, y), q_mul(x, z)),
        q_mul(q_add(y, z), x) == q_add(q_mul(y, x), q_mul(z, x)),
{
    lemma_nonzero_product(y.1, z.1);
    lemma_nonzero_product(x.1, y.1);
    lemma_nonzero_product(x.1, z.1);
    let yz = raw_add(y, z);
    let xy = raw_mul(x, y);
    let xz = raw_mul(x, z);
    lemma_norm(yz, yz);
    lemma_norm(xy, xy);
    lemma_norm(xz, xz);
    // Left side: x * norm(y + z) has the ratio of x * (y + z).
    lemma_raw_congruence(norm(yz), yz, x);
    lemma_nonzero_product(x.1, norm(yz).1);
    lemma_nonzero_product(x.1, yz.1);
    lemma_norm(raw_mul(x, norm(yz)), raw_mul(x, yz));
    // Right side: norm(xy) + norm(xz) has the ratio of xy + xz.
    lemma_raw_congruence(norm(xy), xy, norm(xz));
    lemma_raw_congruence(norm(xz), xz, xy);
    lemma_nonzero_product(norm(xy).1, norm(xz).1);
    lemma_nonzero_product(xy.1, norm(xz).1);
    lemma_nonzero_product(xy.1, xz.1);
    lemma_norm(raw_add(norm(xy), norm(xz)), raw_add(xy, norm(xz)));
    lemma_norm(raw_add(xy, norm(xz)), raw_add(xy, xz));
    // And x * (y + z) has the ratio of xy + xz.
    assert(same(raw_mul(x, yz), raw_add(xy, xz))) by {
        let a = x.0;
        let b = x.1;
        let c = y.0;
        let d = y.1;
        let e = z.0;
        let f = z.1;
        // With t = a (c f + e d): the left numerator is t, the right one is b t.
        let t = a * (c * f + e * d);
        lemma_split(c * f, e * d, a);
        assert((a * c) * (b * f) == b * (a * (c * f))) by (nonlinear_arith);
        assert((a * e) * (b * d) == b * (a * (e * d))) by (nonlinear_arith);
        lemma_split(a * (c * f), a * (e * d), b);
        assert((a * c) * (b * f) + (a * e) * (b * d) == b * t);
        let u = b * (d * f);
        assert((b * d) * (b * f) == b * u) by (nonlinear_arith)
            requires
                u == b * (d * f),
        ;
        assert(t * (b * u) == (b * t) * u) by (nonlinear_arith);
    }
    lemma_norm(raw_mul(x, yz), raw_add(xy, xz));
    lemma_q_closed(y, z);
    lemma_mul_commutes(q_add(y, z), x);
    lemma_mul_commutes(y, x);
    lemma_mul_commutes(z, x);
}

/// A difference is the sum with the negated fraction.
pub proof fn lemma_sub_is_add_neg(x: (int, int), y: (int, int))
    requires
        q_ok(x),
        q_ok(y),
    ensures
        q_sub(x, y) == q_add(x, q_neg(y)),
{
    assert(x.0 * y.1 - y.0 * x.1 == x.0 * y.1 + (-y.0) * x.1) by (nonlinear_arith);
}

/// Negation is multiplication by minus one, so that a product with a negated
/// factor is the negated product.
pub proof fn lemma_neg_mul(x: (int, int), y: (int, int))
    requires
        q_ok(x),
        q_ok(y),
    ensures
        q_mul(q_neg(x), y) == q_neg(q_mul(x, y)),
        q_mul(x, q_neg(y)) == q_neg(q_mul(x, y)),
{
    lemma_q_closed(x, y);
    lemma_nonzero_product(x.1, y.1);
    let p = q_mul(x, y);
    lemma_reduced(x.0 * y.0, x.1 * y.1);
    lemma_q_closed(p, p);
    assert((-p.0) * (x.1 * y.1) == ((-x.0) * y.0) * p.1) by (nonlinear_arith)
        requires
            p.0 * (x.1 * y.1) == (x.0 * y.0) * p.1,
    ;
    lemma_is((-x.0) * y.0, x.1 * y.1, q_neg(p));
    assert((-p.0) * (x.1 * y.1) == (x.0 * (-y.0)) * p.1) by (nonlinear_arith)
        requires
            p.0 * (x.1 * y.1) == (x.0 * y.0) * p.1,
    ;
    lemma_is(x.0 * (-y.0), x.1 * y.1, q_neg(p));
}

/// The quotient times the divisor is the dividend.
pub proof fn lemma_div_mul(x: (int, int), y: (int, int))
    requires
        q_ok(x),
        q_ok(y),
        y.0 != 0,
    ensures
        q_mul(q_div(x, y), y) == x,
{
    lemma_q_closed(x, y);
    lemma_nonzero_product(x.1, y.0);
    let q = q_div(x, y);
    lemma_reduced(x.0 * y.1, x.1 * y.0);
    lemma_nonzero_product(q.1, y.1);
    assert(x.0 * (q.1 * y.1) == (q.0 * y.0) * x.1) by (nonlinear_arith)
        requires
            q.0 * (x.1 * y.0) == (x.0 * y.1) * q.1,
            y.0 != 0,
            y.1 > 0,
            x.1 > 0,
            q.1 > 0,
    ;
    lemma_is(q.0 * y.0, q.1 * y.1, x);
}

} // verus!

//! Fractions in lowest terms: each ratio has exactly one.

use vstd::arithmetic::div_mod::{
    lemma_fundamental_div_mod, lemma_fundamental_div_mod_converse, lemma_mod_bound,
};
use vstd::arithmetic::power::pow;
use vstd::prelude::*;

verus! {

/// `d` divides `a`.
pub open spec fn divides(d: int, a: int) -> bool {
    a % d == 0
}

/// No integer above one divides both `a` and `b`.
pub open spec fn coprime(a: int, b: int) -> bool {
    forall|d: int| d > 1 ==> !(#[trigger] divides(d, a) && divides(d, b))
}

/// A fraction in lowest terms: the denominator is positive and shares no divisor
/// with the numerator.
pub open spec fn lowest(n: int, d: int) -> bool {
    d > 0 && coprime(n, d)
}

/// A positive integer divides exactly its multiples.
pub proof fn lemma_divides_multiples(d: int, a: int)
    requires
        d > 0,
    ensures
        divides(d, a) <==> exists|t: int| a == #[trigger] (d * t),
{
    if divides(d, a) {
        lemma_fundamental_div_mod(a, d);
        assert(a == d * (a / d));
    }
    if exists|t: int| a == #[trigger] (d * t) {
        let t = choose|t: int| a == #[trigger] (d * t);
        assert(a == t * d + 0) by (nonlinear_arith)
            requires
                a == d * t,
        ;
        lemma_fundamental_div_mod_converse(a, d, t, 0);
    }
}

/// What divides two numbers divides every combination of them.
pub proof fn lemma_divides_combination(d: int, a: int, b: int, x: int, y: int)
    requires
        d > 0,
        divides(d, a),
        divides(d, b),
    ensures
        divides(d, a * x + b * y),
{
    lemma_divides_multiples(d, a);
    lemma_divides_multiples(d, b);
    let s = choose|s: int| a == #[trigger] (d * s);
    let t = choose|t: int| b == #[trigger] (d * t);
    assert(a * x + b * y == d * (s * x + t * y)) by (nonlinear_arith)
        requires
            a == d * s,
            b == d * t,
    ;
    lemma_divides_multiples(d, a * x + b * y);
}

/// Bézout: two coprime numbers combine to one.
pub proof fn lemma_bezout(a: int, b: int) -> (r: (int, int))
    requires
        b > 0,
        coprime(a, b),
    ensures
        a * r.0 + b * r.1 == 1,
    decreases b,
{
    if b == 1 {
        assert(a * 0 + 1 * 1 == 1) by (nonlinear_arith);
        (0, 1)
    } else {
        let q = a / b;
        let m = a % b;
        lemma_fundamental_div_mod(a, b);
        lemma_mod_bound(a, b);
        if m == 0 {
            vstd::arithmetic::div_mod::lemma_mod_self_0(b);
            assert(divides(b, a) && divides(b, b));
        }
        assert(coprime(b, m)) by {
            assert forall|k: int| k > 1 implies !(#[trigger] divides(k, b) && divides(k, m)) by {
                if divides(k, b) && divides(k, m) {
                    lemma_divides_combination(k, b, m, q, 1);
                    assert(b * q + m * 1 == a) by (nonlinear_arith)
                        requires
                            a == b * q + m,
                    ;
                    assert(divides(k, a) && divides(k, b));
                }
            }
        }
        let (x1, y1) = lemma_bezout(b, m);
        assert(a * y1 + b * (x1 - q * y1) == 1) by (nonlinear_arith)
            requires
                a == b * q + m,
                b * x1 + m * y1 == 1,
        ;
        (y1, x1 - q * y1)
    }
}

/// Gauss: what divides a product and is coprime to one factor divides the other.
pub proof fn lemma_gauss(a: int, b: int, c: int)
    requires
        b > 0,
        coprime(a, b),
        divides(b, a * c),
    ensures
        divides(b, c),
{
    let (x, y) = lemma_bezout(a, b);
    vstd::arithmetic::div_mod::lemma_mod_self_0(b);
    lemma_divides_combination(b, a * c, b, x, c * y);
    assert((a * c) * x + b * (c * y) == c) by (nonlinear_arith)
        requires
            a * x + b * y == 1,
    ;
}

/// A fraction has one form in lowest terms only.
pub proof fn lemma_lowest_is_unique(n1: int, d1: int, n2: int, d2: int)
    requires
        lowest(n1, d1),
        lowest(n2, d2),
        n1 * d2 == n2 * d1,
    ensures
        n1 == n2,
        d1 == d2,
{
    // d1 divides n1 * d2 and is coprime to n1, so it divides d2; and the reverse.
    lemma_divides_multiples(d1, n1 * d2);
    assert(n1 * d2 == d1 * n2) by (nonlinear_arith)
        requires
            n1 * d2 == n2 * d1,
    ;
    lemma_gauss(n1, d1, d2);
    lemma_divides_multiples(d2, n2 * d1);
    assert(n2 * d1 == d2 * n1) by (nonlinear_arith)
        requires
            n1 * d2 == n2 * d1,
    ;
    lemma_gauss(n2, d2, d1);
    lemma_divides_multiples(d1, d2);
    lemma_divides_multiples(d2, d1);
    let s = choose|s: int| d2 == #[trigger] (d1 * s);
    let t = choose|t: int| d1 == #[trigger] (d2 * t);
    assert(s == 1 && t == 1) by (nonlinear_arith)
        requires
            d2 == d1 * s,
            d1 == d2 * t,
            d1 > 0,
            d2 > 0,
    ;
    assert(d1 == d2) by (nonlinear_arith)
        requires
            d2 == d1 * s,
            s == 1,
    ;
    assert(n1 == n2) by (nonlinear_arith)
        requires
            n1 * d2 == n2 * d1,
            d1 == d2,
            d1 > 0,
    ;
}

/// Every fraction with a positive denominator has a form in lowest terms.
pub proof fn lemma_lowest_exists(n: int, d: int) -> (r: (int, int))
    requires
        d > 0,
    ensures
        lowest(r.0, r.1),
        r.0 * d == n * r.1,
    decreases d,
{
    if coprime(n, d) {
        assert(n * d == n * d);
        (n, d)
    } else {
        let k = choose|k: int| k > 1 && #[trigger] divides(k, n) && divides(k, d);
        lemma_divides_multiples(k, n);
        lemma_divides_multiples(k, d);
        let s = choose|s: int| n == #[trigger] (k * s);
        let t = choose|t: int| d == #[trigger] (k * t);
        assert(0 < t < d) by (nonlinear_arith)
            requires
                d == k * t,
                k > 1,
                d > 0,
        ;
        let r = lemma_lowest_exists(s, t);
        assert(r.0 * d == n * r.1) by (nonlinear_arith)
            requires
                r.0 * t == s * r.1,
                n == k * s,
                d == k * t,
        ;
        r
    }
}

/// The form in lowest terms of the fraction `n / d`, for a denominator that is not
/// zero.
pub open spec fn reduced(n: int, d: int) -> (int, int) {
    choose|p: (int, int)| lowest(p.0, p.1) && p.0 * d == n * p.1
}

/// The reduced form is in lowest terms and stands for the same fraction.
pub proof fn lemma_reduced(n: int, d: int)
    requires
        d != 0,
    ensures
        lowest(reduced(n, d).0, reduced(n, d).1),
        reduced(n, d).0 * d == n * reduced(n, d).1,
{
    let witness = if d > 0 {
        lemma_lowest_exists(n, d)
    } else {
        let r = lemma_lowest_exists(-n, -d);
        assert(r.0 * d == n * r.1) by (nonlinear_arith)
            requires
                r.0 * (-d) == (-n) * r.1,
        ;
        r
    };
    assert(lowest(witness.0, witness.1) && witness.0 * d == n * witness.1);
}

/// The reduced form is the only form in lowest terms that stands for the same
/// fraction.
pub proof fn lemma_reduced_is_unique(n: int, d: int, p: (int, int))
    requires
        d != 0,
        lowest(p.0, p.1),
        p.0 * d == n * p.1,
    ensures
        p == reduced(n, d),
{
    lemma_reduced(n, d);
    let chosen = reduced(n, d);
    assert(p.0 * chosen.1 == chosen.0 * p.1) by (nonlinear_arith)
        requires
            p.0 * d == n * p.1,
            chosen.0 * d == n * chosen.1,
            d != 0,
    ;
    lemma_lowest_is_unique(p.0, p.1, chosen.0, chosen.1);
}

/// One is coprime to everything.
pub proof fn lemma_coprime_to_one(a: int)
    ensures
        coprime(a, 1),
{
    assert forall|d: int| d > 1 implies !(#[trigger] divides(d, a) && divides(d, 1)) by {
        vstd::arithmetic::div_mod::lemma_small_mod(1, d as nat);
    }
}

/// Only one is coprime to zero, among the positive integers.
pub proof fn lemma_coprime_to_zero(b: int)
    requires
        b > 0,
        coprime(0, b),
    ensures
        b == 1,
{
    if b > 1 {
        vstd::arithmetic::div_mod::lemma_mod_self_0(b);
        assert(divides(b, 0) && divides(b, b));
    }
}

/// Fractions that stand for the same ratio have the same reduced form.
pub proof fn lemma_same_ratio(n1: int, d1: int, n2: int, d2: int)
    requires
        d1 != 0,
        d2 != 0,
        n1 * d2 == n2 * d1,
    ensures
        reduced(n1, d1) == reduced(n2, d2),
{
    lemma_reduced(n1, d1);
    let p = reduced(n1, d1);
    assert(p.0 * d2 == n2 * p.1) by (nonlinear_arith)
        requires
            p.0 * d1 == n1 * p.1,
            n1 * d2 == n2 * d1,
            d1 != 0,
    ;
    lemma_reduced_is_unique(n2, d2, p);
}

/// A fraction in lowest terms is its own reduced form.
pub proof fn lemma_reduced_of_lowest(n: int, d: int)
    requires
        lowest(n, d),
    ensures
        reduced(n, d) == (n, d),
{
    lemma_reduced_is_unique(n, d, (n, d));
}

/// The sum of two fractions, in lowest terms.
pub open spec fn q_add(x: (int, int), y: (int, int)) -> (int, int) {
    reduced(x.0 * y.1 + y.0 * x.1, x.1 * y.1)
}

/// The difference of two fractions, in lowest terms.
pub open spec fn q_sub(x: (int, int), y: (int, int)) -> (int, int) {
    reduced(x.0 * y.1 - y.0 * x.1, x.1 * y.1)
}

/// The product of two fractions, in lowest terms.
pub open spec fn q_mul(x: (int, int), y: (int, int)) -> (int, int) {
    reduced(x.0 * y.0, x.1 * y.1)
}

/// The quotient of two fractions, in lowest terms; the divisor must not be zero.
pub open spec fn q_div(x: (int, int), y: (int, int)) -> (int, int) {
    reduced(x.0 * y.1, x.1 * y.0)
}

/// The power of a fraction, in lowest terms.
pub open spec fn q_pow(x: (int, int), e: nat) -> (int, int) {
    reduced(pow(x.0, e), pow(x.1, e))
}

} // verus!

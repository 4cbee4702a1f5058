//! Exact fractions of 64-bit integers in lowest terms.

use crate::theory::fractions::{
    lemma_coprime_to_one, lemma_coprime_to_zero, lemma_reduced_is_unique, lowest, q_add, q_div, q_mul,
    q_pow, q_sub,
};
use crate::text::{append_int, append_nat, int_text, nat_text};
use crate::traits::{CheckedOps, LaTeXable, MatrixNumber};
use vstd::arithmetic::power::pow;
use vstd::prelude::*;
use vstd::string::*;

verus! {

/// Numerator and denominator of a fraction in lowest terms, the denominator
/// positive.
pub open spec fn lowest_terms(v: (i64, i64)) -> bool {
    lowest(v.0 as int, v.1 as int)
}

/// Whether both numbers of a pair fit in 64 bits.
pub open spec fn fits(p: (int, int)) -> bool {
    i64::MIN <= p.0 <= i64::MAX && i64::MIN <= p.1 <= i64::MAX
}

/// What `num_rational`'s checked addition returns for `an/ad + bn/bd`.
pub uninterp spec fn ratio_sum(an: i64, ad: i64, bn: i64, bd: i64) -> Option<(i64, i64)>;

/// What `num_rational`'s checked subtraction returns for `an/ad - bn/bd`.
pub uninterp spec fn ratio_difference(an: i64, ad: i64, bn: i64, bd: i64) -> Option<(i64, i64)>;

/// What `num_rational`'s checked multiplication returns for `an/ad * bn/bd`.
pub uninterp spec fn ratio_product(an: i64, ad: i64, bn: i64, bd: i64) -> Option<(i64, i64)>;

/// What `num_rational`'s checked division returns for `an/ad` divided by `bn/bd`.
pub uninterp spec fn ratio_quotient(an: i64, ad: i64, bn: i64, bd: i64) -> Option<(i64, i64)>;

/// What `num_traits::checked_pow` returns for the fraction `n/d` and `exp`.
pub uninterp spec fn ratio_power(n: i64, d: i64, exp: usize) -> Option<(i64, i64)>;

/// `num_rational::Ratio::new`: the fraction `numer/denom` in lowest terms with a
/// positive denominator. The inputs on which it panics or overflows are left out:
/// a zero denominator, and a negative one beside the smallest integer.
#[verifier::external_body]
fn ratio_new(numer: i64, denom: i64) -> (r: (i64, i64))
    requires
        denom != 0,
        denom > 0 || (numer != i64::MIN && denom != i64::MIN),
    ensures
        lowest_terms(r),
        r.0 * denom == numer * r.1,
{
    let q = num_rational::Ratio::new(numer, denom);
    (*q.numer(), *q.denom())
}

/// `CheckedAdd::checked_add` of `num_rational::Ratio<i64>`: `None` when an
/// intermediate value overflows, else the sum in lowest terms.
#[verifier::external_body]
fn ratio_checked_add(a: (i64, i64), b: (i64, i64)) -> (r: Option<(i64, i64)>)
    requires
        a.1 > 0,
        b.1 > 0,
    ensures
        r == ratio_sum(a.0, a.1, b.0, b.1),
        r matches Some(v) ==> lowest_terms(v) && v.0 * (a.1 * b.1) == (a.0 * b.1 + b.0 * a.1) * v.1,
{
    let x = num_rational::Ratio::new_raw(a.0, a.1);
    let y = num_rational::Ratio::new_raw(b.0, b.1);
    match num_traits::CheckedAdd::checked_add(&x, &y) {
        Some(q) => Some((*q.numer(), *q.denom())),
        None => None,
    }
}

/// `CheckedSub::checked_sub` of `num_rational::Ratio<i64>`: `None` when an
/// intermediate value overflows, else the difference in lowest terms.
#[verifier::external_body]
fn ratio_checked_sub(a: (i64, i64), b: (i64, i64)) -> (r: Option<(i64, i64)>)
    requires
        a.1 > 0,
        b.1 > 0,
    ensures
        r == ratio_difference(a.0, a.1, b.0, b.1),
        r matches Some(v) ==> lowest_terms(v) && v.0 * (a.1 * b.1) == (a.0 * b.1 - b.0 * a.1) * v.1,
{
    let x = num_rational::Ratio::new_raw(a.0, a.1);
    let y = num_rational::Ratio::new_raw(b.0, b.1);
    match num_traits::CheckedSub::checked_sub(&x, &y) {
        Some(q) => Some((*q.numer(), *q.denom())),
        None => None,
    }
}

/// `CheckedMul::checked_mul` of `num_rational::Ratio<i64>`: `None` when an
/// intermediate value overflows, else the product in lowest terms.
#[verifier::external_body]
fn ratio_checked_mul(a: (i64, i64), b: (i64, i64)) -> (r: Option<(i64, i64)>)
    requires
        a.1 > 0,
        b.1 > 0,
    ensures
        r == ratio_product(a.0, a.1, b.0, b.1),
        r matches Some(v) ==> lowest_terms(v) && v.0 * (a.1 * b.1) == (a.0 * b.0) * v.1,
{
    let x = num_rational::Ratio::new_raw(a.0, a.1);
    let y = num_rational::Ratio::new_raw(b.0, b.1);
    match num_traits::CheckedMul::checked_mul(&x, &y) {
        Some(q) => Some((*q.numer(), *q.denom())),
        None => None,
    }
}

/// `CheckedDiv::checked_div` of `num_rational::Ratio<i64>` for a nonzero dividend
/// and a nonzero divisor: `None` when an intermediate value overflows, else the
/// quotient in lowest terms.
#[verifier::external_body]
fn ratio_checked_div(a: (i64, i64), b: (i64, i64)) -> (r: Option<(i64, i64)>)
    requires
        a.1 > 0,
        b.1 > 0,
        a.0 != 0,
        b.0 != 0,
    ensures
        r == ratio_quotient(a.0, a.1, b.0, b.1),
        r matches Some(v) ==> lowest_terms(v) && v.0 * (a.1 * b.0) == (a.0 * b.1) * v.1,
{
    let x = num_rational::Ratio::new_raw(a.0, a.1);
    let y = num_rational::Ratio::new_raw(b.0, b.1);
    match num_traits::CheckedDiv::checked_div(&x, &y) {
        Some(q) => Some((*q.numer(), *q.denom())),
        None => None,
    }
}

/// `num_traits::checked_pow` on a `num_rational::Ratio<i64>` in lowest terms:
/// repeated checked multiplication by squaring. Exponent zero gives one; a value
/// that comes back is the exact power in lowest terms.
#[verifier::external_body]
fn ratio_checked_pow(base: (i64, i64), exp: usize) -> (r: Option<(i64, i64)>)
    requires
        lowest_terms(base),
    ensures
        r == ratio_power(base.0, base.1, exp),
        exp == 0 ==> r.is_some(),
        r matches Some(v) ==> lowest_terms(v) && v.0 * pow(base.1 as int, exp as nat) == pow(
            base.0 as int,
            exp as nat,
        ) * v.1,
{
    let x = num_rational::Ratio::new_raw(base.0, base.1);
    match num_traits::checked_pow(x, exp) {
        Some(q) => Some((*q.numer(), *q.denom())),
        None => None,
    }
}

/// An exact fraction of two 64-bit integers, always kept in lowest terms with a
/// positive denominator.
#[derive(Debug, Clone, Copy, PartialEq, Eq, Structural)]
pub struct Rational {
    numer: i64,
    denom: i64,
}


impl Rational {
    #[verifier::type_invariant]
    spec fn well_formed(self) -> bool {
        lowest_terms((self.numer, self.denom))
    }

    /// The numerator.
    pub closed spec fn numer_spec(self) -> i64 {
        self.numer
    }

    /// The denominator.
    pub closed spec fn denom_spec(self) -> i64 {
        self.denom
    }

    /// Numerator and denominator as integers.
    pub open spec fn value(self) -> (int, int) {
        (self.numer_spec() as int, self.denom_spec() as int)
    }

    /// The fraction is in lowest terms with a positive denominator. Every fraction
    /// that a program holds is.
    pub open spec fn wf(self) -> bool {
        lowest(self.value().0, self.value().1)
    }

    /// The fraction with this numerator and denominator.
    pub closed spec fn of(p: (int, int)) -> Rational {
        Rational { numer: p.0 as i64, denom: p.1 as i64 }
    }

    /// The fraction `p` if the operation that gives it did not overflow and `p`
    /// fits in 64 bits.
    pub open spec fn checked(succeeded: bool, p: (int, int)) -> Option<Rational> {
        if succeeded && fits(p) {
            Some(Self::of(p))
        } else {
            None
        }
    }

    /// The fraction `numer/denom` in lowest terms. A zero denominator is not
    /// allowed, nor a negative one beside the smallest integer.
    pub fn new(numer: i64, denom: i64) -> (r: Self)
        requires
            denom != 0,
            denom > 0 || (numer != i64::MIN && denom != i64::MIN),
        ensures
            lowest_terms((r.numer_spec(), r.denom_spec())),
            r.numer_spec() * denom == numer * r.denom_spec(),
    {
        let v = ratio_new(numer, denom);
        Rational { numer: v.0, denom: v.1 }
    }

    /// The fraction that stands for an integer.
    pub fn from_integer(n: i64) -> (r: Self)
        ensures
            r == Self::of((n as int, 1int)),
    {
        proof {
            lemma_coprime_to_one(n as int);
        }
        Rational { numer: n, denom: 1 }
    }

    /// The numerator.
    pub fn numer(&self) -> (n: i64)
        ensures
            n == self.numer_spec(),
    {
        self.numer
    }

    /// The denominator; it is positive.
    pub fn denom(&self) -> (d: i64)
        ensures
            d == self.denom_spec(),
            d > 0,
    {
        proof {
            use_type_invariant(self);
        }
        self.denom
    }

    /// Whether the fraction is an integer.
    pub fn is_integer(&self) -> (b: bool)
        ensures
            b == (self.denom_spec() == 1),
    {
        self.denom == 1
    }

    /// The fraction that the result of an operation stands for: the pair that came
    /// back is the exact result `exact` in lowest terms.
    fn of_pair(v: Option<(i64, i64)>, Ghost(raw): Ghost<(int, int)>) -> (r: Option<Self>)
        requires
            raw.1 != 0,
            v matches Some(p) ==> lowest_terms(p) && p.0 * raw.1 == raw.0 * p.1,
        ensures
            r == Self::checked(v.is_some(), crate::theory::fractions::reduced(raw.0, raw.1)),
    {
        match v {
            None => None,
            Some(p) => {
                proof {
                    lemma_reduced_is_unique(raw.0, raw.1, (p.0 as int, p.1 as int));
                }
                Some(Rational { numer: p.0, denom: p.1 })
            },
        }
    }

    /// The text of the fraction in LaTeX: the integer itself, or a sign and a
    /// `\frac` of the magnitudes.
    pub closed spec fn latex_text(self) -> Seq<char> {
        if self.denom == 1 {
            int_text(self.numer as int)
        } else {
            (if self.numer > 0 {
                ""@
            } else {
                "-"@
            }) + "\\frac{"@ + nat_text(vstd::math::abs(self.numer as int)) + "}{"@ + nat_text(
                vstd::math::abs(self.denom as int),
            ) + "}"@
        }
    }

    /// The plain text of the fraction: the integer itself, or numerator, a
    /// slash, denominator.
    pub closed spec fn plain_text(self) -> Seq<char> {
        if self.denom == 1 {
            int_text(self.numer as int)
        } else {
            int_text(self.numer as int) + "/"@ + int_text(self.denom as int)
        }
    }

    /// The plain text of the fraction.
    pub fn to_string(&self) -> (s: String)
        ensures
            s@ == self.plain_text(),
    {
        let mut s = String::new();
        append_int(&mut s, self.numer as i128);
        if self.denom != 1 {
            s.append("/");
            append_int(&mut s, self.denom as i128);
        }
        assert(s@ =~= self.plain_text());
        s
    }
}

/// The magnitude of a 64-bit integer.
fn magnitude(n: i64) -> (m: u128)
    ensures
        m == vstd::math::abs(n as int),
{
    let wide = n as i128;
    if wide < 0 {
        (-wide) as u128
    } else {
        wide as u128
    }
}

impl LaTeXable for Rational {
    open spec fn renderable(&self) -> bool {
        true
    }

    closed spec fn latex_spec(&self) -> Seq<char> {
        self.latex_text()
    }

    closed spec fn latex_single_spec(&self) -> Seq<char> {
        if self.numer > 0 {
            self.latex_text()
        } else {
            "\\left("@ + self.latex_text() + "\\right)"@
        }
    }

    fn to_latex(&self) -> (s: String) {
        let mut s = String::new();
        if self.denom == 1 {
            append_int(&mut s, self.numer as i128);
            assert(s@ =~= self.latex_text());
        } else {
            if self.numer > 0 {
                s.append("");
            } else {
                s.append("-");
            }
            s.append("\\frac{");
            append_nat(&mut s, magnitude(self.numer));
            s.append("}{");
            append_nat(&mut s, magnitude(self.denom));
            s.append("}");
            assert(s@ =~= self.latex_text());
        }
        s
    }

    fn to_latex_single(&self) -> (s: String) {
        if self.numer > 0 {
            self.to_latex()
        } else {
            let mut s = String::from_str("\\left(");
            s.append(self.to_latex().as_str());
            s.append("\\right)");
            s
        }
    }
}

impl CheckedOps for Rational {
    /// The exact sum in lowest terms, unless the addition overflows.
    open spec fn add_spec(self, rhs: Self) -> Option<Self> {
        Self::checked(
            ratio_sum(
                self.numer_spec(),
                self.denom_spec(),
                rhs.numer_spec(),
                rhs.denom_spec(),
            ).is_some(),
            q_add(self.value(), rhs.value()),
        )
    }

    /// The exact difference in lowest terms, unless the subtraction overflows.
    open spec fn sub_spec(self, rhs: Self) -> Option<Self> {
        Self::checked(
            ratio_difference(
                self.numer_spec(),
                self.denom_spec(),
                rhs.numer_spec(),
                rhs.denom_spec(),
            ).is_some(),
            q_sub(self.value(), rhs.value()),
        )
    }

    /// The exact product in lowest terms, unless the multiplication overflows.
    open spec fn mul_spec(self, rhs: Self) -> Option<Self> {
        Self::checked(
            ratio_product(
                self.numer_spec(),
                self.denom_spec(),
                rhs.numer_spec(),
                rhs.denom_spec(),
            ).is_some(),
            q_mul(self.value(), rhs.value()),
        )
    }

    /// Division by zero gives nothing, zero divided by anything else is zero, and
    /// any other quotient is exact and in lowest terms, unless the division
    /// overflows.
    open spec fn div_spec(self, rhs: Self) -> Option<Self> {
        if rhs.numer_spec() == 0 {
            None
        } else if self.numer_spec() == 0 {
            Some(Self::of((0int, 1int)))
        } else {
            Self::checked(
                ratio_quotient(
                    self.numer_spec(),
                    self.denom_spec(),
                    rhs.numer_spec(),
                    rhs.denom_spec(),
                ).is_some(),
                q_div(self.value(), rhs.value()),
            )
        }
    }

    fn checked_add(&self, rhs: &Self) -> (r: Option<Self>) {
        proof {
            use_type_invariant(self);
            use_type_invariant(rhs);
            assert(self.denom * rhs.denom != 0) by (nonlinear_arith)
                requires
                    self.denom > 0,
                    rhs.denom > 0,
            ;
        }
        Self::of_pair(
            ratio_checked_add((self.numer, self.denom), (rhs.numer, rhs.denom)),
            Ghost((self.numer * rhs.denom + rhs.numer * self.denom, self.denom * rhs.denom)),
        )
    }

    fn checked_sub(&self, rhs: &Self) -> (r: Option<Self>) {
        proof {
            use_type_invariant(self);
            use_type_invariant(rhs);
            assert(self.denom * rhs.denom != 0) by (nonlinear_arith)
                requires
                    self.denom > 0,
                    rhs.denom > 0,
            ;
        }
        Self::of_pair(
            ratio_checked_sub((self.numer, self.denom), (rhs.numer, rhs.denom)),
            Ghost((self.numer * rhs.denom - rhs.numer * self.denom, self.denom * rhs.denom)),
        )
    }

    fn checked_mul(&self, rhs: &Self) -> (r: Option<Self>) {
        proof {
            use_type_invariant(self);
            use_type_invariant(rhs);
            assert(self.denom * rhs.denom != 0) by (nonlinear_arith)
                requires
                    self.denom > 0,
                    rhs.denom > 0,
            ;
        }
        Self::of_pair(
            ratio_checked_mul((self.numer, self.denom), (rhs.numer, rhs.denom)),
            Ghost((self.numer * rhs.numer, self.denom * rhs.denom)),
        )
    }

    fn checked_div(&self, rhs: &Self) -> (r: Option<Self>) {
        proof {
            use_type_invariant(self);
            use_type_invariant(rhs);
        }
        if rhs.numer == 0 {
            None
        } else if self.numer == 0 {
            Some(Self::from_integer(0))
        } else {
            proof {
                assert(self.denom * rhs.numer != 0) by (nonlinear_arith)
                    requires
                        self.denom > 0,
                        rhs.numer != 0,
                ;
            }
            Self::of_pair(
                ratio_checked_div((self.numer, self.denom), (rhs.numer, rhs.denom)),
                Ghost((self.numer * rhs.denom, self.denom * rhs.numer)),
            )
        }
    }
}

impl MatrixNumber for Rational {
    open spec fn zero_spec() -> Self {
        Self::of((0int, 1int))
    }

    open spec fn one_spec() -> Self {
        Self::of((1int, 1int))
    }

    open spec fn is_positive_spec(self) -> bool {
        self.numer_spec() > 0
    }

    open spec fn is_negative_spec(self) -> bool {
        self.numer_spec() < 0
    }

    open spec fn from_u64_spec(n: u64) -> Option<Self> {
        if n <= i64::MAX {
            Some(Self::of((n as int, 1int)))
        } else {
            None
        }
    }

    /// The fraction rounded towards zero, when that is not negative.
    open spec fn to_usize_spec(self) -> Option<usize> {
        if self.numer_spec() >= 0 {
            if self.numer_spec() / self.denom_spec() <= usize::MAX {
                Some((self.numer_spec() / self.denom_spec()) as usize)
            } else {
                None
            }
        } else if -self.numer_spec() < self.denom_spec() {
            Some(0)
        } else {
            None
        }
    }

    /// The exact power in lowest terms, unless a multiplication on the way to it
    /// overflows.
    open spec fn pow_spec(self, exp: usize) -> Option<Self> {
        Self::checked(
            ratio_power(self.numer_spec(), self.denom_spec(), exp).is_some(),
            q_pow(self.value(), exp as nat),
        )
    }

    closed spec fn text_spec(self) -> Seq<char> {
        self.plain_text()
    }

    fn zero() -> (r: Self) {
        Self::from_integer(0)
    }

    fn one() -> (r: Self) {
        Self::from_integer(1)
    }

    fn is_zero(&self) -> (b: bool) {
        proof {
            use_type_invariant(self);
            if self.numer == 0 {
                lemma_coprime_to_zero(self.denom as int);
            }
        }
        self.numer == 0
    }

    fn is_one(&self) -> (b: bool) {
        self.numer == 1 && self.denom == 1
    }

    fn is_positive(&self) -> (b: bool) {
        self.numer > 0
    }

    fn is_negative(&self) -> (b: bool) {
        self.numer < 0
    }

    fn from_u64(n: u64) -> (r: Option<Self>) {
        if n <= i64::MAX as u64 {
            Some(Self::from_integer(n as i64))
        } else {
            None
        }
    }

    fn to_usize(&self) -> (r: Option<usize>) {
        proof {
            use_type_invariant(self);
        }
        if self.numer >= 0 {
            let q: u64 = (self.numer as u64) / (self.denom as u64);
            if q <= usize::MAX as u64 {
                Some(q as usize)
            } else {
                None
            }
        } else if -(self.numer as i128) < self.denom as i128 {
            Some(0)
        } else {
            None
        }
    }

    fn checked_pow(&self, exp: usize) -> (r: Option<Self>) {
        proof {
            use_type_invariant(self);
            vstd::arithmetic::power::lemma_pow_positive(self.denom as int, exp as nat);
        }
        Self::of_pair(
            ratio_checked_pow((self.numer, self.denom), exp),
            Ghost((pow(self.numer as int, exp as nat), pow(self.denom as int, exp as nat))),
        )
    }

    fn to_text(&self) -> (s: String) {
        self.to_string()
    }

    fn same(&self, other: &Self) -> (b: bool) {
        self.numer == other.numer && self.denom == other.denom
    }

    proof fn lemma_zero_is_not_one() {
    }

    proof fn lemma_numbers_render(x: Self) {
    }
}

/// The arithmetic of fractions is exact: a result that exists is the fraction in
/// lowest terms that mathematics gives. Zero and one are what they should be, and
/// a fraction is told by its value.
pub proof fn lemma_exact_arithmetic(a: Rational, b: Rational)
    requires
        a.wf(),
        b.wf(),
    ensures
        a.add_spec(b) matches Some(c) ==> c.wf() && c.value() == q_add(a.value(), b.value()),
        a.sub_spec(b) matches Some(c) ==> c.wf() && c.value() == q_sub(a.value(), b.value()),
        a.mul_spec(b) matches Some(c) ==> c.wf() && c.value() == q_mul(a.value(), b.value()),
        a.div_spec(b) matches Some(c) ==> b.value().0 != 0 && c.wf() && c.value() == q_div(
            a.value(),
            b.value(),
        ),
        Rational::zero_spec().wf() && Rational::zero_spec().value() == (0int, 1int),
        Rational::one_spec().wf() && Rational::one_spec().value() == (1int, 1int),
        a.value() == b.value() ==> a == b,
        a == Rational::zero_spec() <==> a.value().0 == 0,
{
    crate::theory::field::lemma_q_closed(a.value(), b.value());
    crate::theory::field::lemma_constants_ok();
    if a.value().0 == 0 {
        lemma_coprime_to_zero(a.value().1);
        if b.value().0 != 0 {
            assert(a.value().1 * b.value().0 != 0) by (nonlinear_arith)
                requires
                    a.value().1 > 0,
                    b.value().0 != 0,
            ;
            assert(0 * (a.value().1 * b.value().0) == (a.value().0 * b.value().1) * 1)
                by (nonlinear_arith)
                requires
                    a.value().0 == 0,
            ;
            crate::theory::field::lemma_is(
                a.value().0 * b.value().1,
                a.value().1 * b.value().0,
                (0int, 1int),
            );
        }
    }
}

/// Zero and one are fractions in lowest terms with the values zero and one.
pub proof fn lemma_exact_constants()
    ensures
        Rational::zero_spec().wf() && Rational::zero_spec().value() == (0int, 1int),
        Rational::one_spec().wf() && Rational::one_spec().value() == (1int, 1int),
{
    crate::theory::field::lemma_constants_ok();
}

} // verus!

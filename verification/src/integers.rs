//! The machine integers as numbers of the calculator.

use crate::text::{int_text, int_to_string};
use crate::traits::{CheckedOps, LaTeXable, MatrixNumber};
use vstd::arithmetic::div_mod::{
    lemma_div_basics, lemma_div_is_ordered_by_denominator, lemma_div_pos_is_pos,
};
use vstd::arithmetic::power::pow;
use vstd::prelude::*;

verus! {

/// Quotient of two integers rounded towards zero.
pub open spec fn truncated_quotient(x: int, d: int) -> int
    recommends
        d != 0,
{
    if x >= 0 && d > 0 {
        x / d
    } else if x < 0 && d < 0 {
        (-x) / (-d)
    } else if x < 0 {
        -((-x) / d)
    } else {
        -(x / (-d))
    }
}

/// The truncated quotient is no larger in magnitude than the dividend, and strictly
/// below its negation when a negative number is divided by anything but minus one.
pub proof fn lemma_truncated_quotient_bounds(x: int, d: int)
    requires
        d != 0,
    ensures
        x >= 0 ==> -x <= truncated_quotient(x, d) <= x,
        x < 0 ==> x <= truncated_quotient(x, d) <= -x,
        x < 0 && d != -1 ==> truncated_quotient(x, d) < -x,
{
    if x >= 0 && d > 0 {
        lemma_div_pos_is_pos(x, d);
        lemma_div_is_ordered_by_denominator(x, 1, d);
        lemma_div_basics(x);
    } else if x < 0 && d < 0 {
        lemma_div_pos_is_pos(-x, -d);
        lemma_div_is_ordered_by_denominator(-x, 1, -d);
        lemma_div_basics(-x);
        if d != -1 {
            lemma_div_is_ordered_by_denominator(-x, 2, -d);
        }
    } else if x < 0 {
        lemma_div_pos_is_pos(-x, d);
        lemma_div_is_ordered_by_denominator(-x, 1, d);
        lemma_div_basics(-x);
    } else {
        lemma_div_pos_is_pos(x, -d);
        lemma_div_is_ordered_by_denominator(x, 1, -d);
        lemma_div_basics(x);
    }
}

/// What `num_traits::checked_pow` returns for a base of type `i8`.
pub uninterp spec fn checked_pow_i8(base: i8, exp: usize) -> Option<i8>;

/// Calls `num_traits::checked_pow` on an `i8`: repeated checked multiplication by
/// squaring. Exponent zero gives one; a value that comes back is the exact power.
#[verifier::external_body]
fn pow_i8(base: i8, exp: usize) -> (r: Option<i8>)
    ensures
        r == checked_pow_i8(base, exp),
        exp == 0 ==> r == Some(1 as i8),
        r matches Some(v) ==> v as int == pow(base as int, exp as nat),
{
    num_traits::checked_pow(base, exp)
}

impl LaTeXable for i8 {
    open spec fn renderable(&self) -> bool {
        true
    }

    open spec fn latex_spec(&self) -> Seq<char> {
        int_text(*self as int)
    }

    open spec fn latex_single_spec(&self) -> Seq<char> {
        int_text(*self as int)
    }

    fn to_latex(&self) -> (s: String) {
        int_to_string(*self as i128)
    }

    fn to_latex_single(&self) -> (s: String) {
        int_to_string(*self as i128)
    }
}

impl CheckedOps for i8 {
    open spec fn add_spec(self, rhs: Self) -> Option<Self> {
        if i8::MIN <= self + rhs <= i8::MAX {
            Some((self + rhs) as i8)
        } else {
            None
        }
    }

    open spec fn sub_spec(self, rhs: Self) -> Option<Self> {
        if i8::MIN <= self - rhs <= i8::MAX {
            Some((self - rhs) as i8)
        } else {
            None
        }
    }

    open spec fn mul_spec(self, rhs: Self) -> Option<Self> {
        if i8::MIN <= self * rhs <= i8::MAX {
            Some((self * rhs) as i8)
        } else {
            None
        }
    }

    /// The quotient rounded towards zero; nothing for a zero divisor and for the
    /// one quotient that does not fit.
    open spec fn div_spec(self, rhs: Self) -> Option<Self> {
        if rhs == 0 || (self == i8::MIN && rhs == -1) {
            None
        } else {
            Some(truncated_quotient(self as int, rhs as int) as i8)
        }
    }

    fn checked_add(&self, rhs: &Self) -> (r: Option<Self>) {
        i8::checked_add(*self, *rhs)
    }

    fn checked_sub(&self, rhs: &Self) -> (r: Option<Self>) {
        i8::checked_sub(*self, *rhs)
    }

    fn checked_mul(&self, rhs: &Self) -> (r: Option<Self>) {
        i8::checked_mul(*self, *rhs)
    }

    fn checked_div(&self, rhs: &Self) -> (r: Option<Self>) {
        if *rhs == 0 {
            return None;
        }
        proof {
            lemma_truncated_quotient_bounds(*self as int, *rhs as int);
        }
        i8::checked_div(*self, *rhs)
    }
}

impl MatrixNumber for i8 {
    open spec fn zero_spec() -> Self {
        0
    }

    open spec fn one_spec() -> Self {
        1
    }

    open spec fn is_positive_spec(self) -> bool {
        self > 0
    }

    open spec fn is_negative_spec(self) -> bool {
        self < 0
    }

    open spec fn from_u64_spec(n: u64) -> Option<Self> {
        if n <= i8::MAX {
            Some(n as i8)
        } else {
            None
        }
    }

    open spec fn to_usize_spec(self) -> Option<usize> {
        if 0 <= self <= usize::MAX {
            Some(self as usize)
        } else {
            None
        }
    }

    open spec fn pow_spec(self, exp: usize) -> Option<Self> {
        checked_pow_i8(self, exp)
    }

    open spec fn text_spec(self) -> Seq<char> {
        int_text(self as int)
    }

    fn zero() -> (r: Self) {
        0
    }

    fn one() -> (r: Self) {
        1
    }

    fn is_zero(&self) -> (b: bool) {
        *self == 0
    }

    fn is_one(&self) -> (b: bool) {
        *self == 1
    }

    fn is_positive(&self) -> (b: bool) {
        *self > 0
    }

    fn is_negative(&self) -> (b: bool) {
        *self < 0
    }

    fn from_u64(n: u64) -> (r: Option<Self>) {
        if n as i128 <= i8::MAX as i128 {
            Some(n as i8)
        } else {
            None
        }
    }

    fn to_usize(&self) -> (r: Option<usize>) {
        let wide = *self as i128;
        if wide >= 0 && wide <= usize::MAX as i128 {
            Some(wide as usize)
        } else {
            None
        }
    }

    fn checked_pow(&self, exp: usize) -> (r: Option<Self>) {
        pow_i8(*self, exp)
    }

    fn to_text(&self) -> (s: String) {
        int_to_string(*self as i128)
    }

    fn same(&self, other: &Self) -> (b: bool) {
        *self == *other
    }

    proof fn lemma_zero_is_not_one() {
    }

    proof fn lemma_numbers_render(x: Self) {
    }
}

/// What `num_traits::checked_pow` returns for a base of type `i16`.
pub uninterp spec fn checked_pow_i16(base: i16, exp: usize) -> Option<i16>;

/// Calls `num_traits::checked_pow` on an `i16`: repeated checked multiplication by
/// squaring. Exponent zero gives one; a value that comes back is the exact power.
#[verifier::external_body]
fn pow_i16(base: i16, exp: usize) -> (r: Option<i16>)
    ensures
        r == checked_pow_i16(base, exp),
        exp == 0 ==> r == Some(1 as i16),
        r matches Some(v) ==> v as int == pow(base as int, exp as nat),
{
    num_traits::checked_pow(base, exp)
}

impl LaTeXable for i16 {
    open spec fn renderable(&self) -> bool {
        true
    }

    open spec fn latex_spec(&self) -> Seq<char> {
        int_text(*self as int)
    }

    open spec fn latex_single_spec(&self) -> Seq<char> {
        int_text(*self as int)
    }

    fn to_latex(&self) -> (s: String) {
        int_to_string(*self as i128)
    }

    fn to_latex_single(&self) -> (s: String) {
        int_to_string(*self as i128)
    }
}

impl CheckedOps for i16 {
    open spec fn add_spec(self, rhs: Self) -> Option<Self> {
        if i16::MIN <= self + rhs <= i16::MAX {
            Some((self + rhs) as i16)
        } else {
            None
        }
    }

    open spec fn sub_spec(self, rhs: Self) -> Option<Self> {
        if i16::MIN <= self - rhs <= i16::MAX {
            Some((self - rhs) as i16)
        } else {
            None
        }
    }

    open spec fn mul_spec(self, rhs: Self) -> Option<Self> {
        if i16::MIN <= self * rhs <= i16::MAX {
            Some((self * rhs) as i16)
        } else {
            None
        }
    }

    /// The quotient rounded towards zero; nothing for a zero divisor and for the
    /// one quotient that does not fit.
    open spec fn div_spec(self, rhs: Self) -> Option<Self> {
        if rhs == 0 || (self == i16::MIN && rhs == -1) {
            None
        } else {
            Some(truncated_quotient(self as int, rhs as int) as i16)
        }
    }

    fn checked_add(&self, rhs: &Self) -> (r: Option<Self>) {
        i16::checked_add(*self, *rhs)
    }

    fn checked_sub(&self, rhs: &Self) -> (r: Option<Self>) {
        i16::checked_sub(*self, *rhs)
    }

    fn checked_mul(&self, rhs: &Self) -> (r: Option<Self>) {
        i16::checked_mul(*self, *rhs)
    }

    fn checked_div(&self, rhs: &Self) -> (r: Option<Self>) {
        if *rhs == 0 {
            return None;
        }
        proof {
            lemma_truncated_quotient_bounds(*self as int, *rhs as int);
        }
        i16::checked_div(*self, *rhs)
    }
}

impl MatrixNumber for i16 {
    open spec fn zero_spec() -> Self {
        0
    }

    open spec fn one_spec() -> Self {
        1
    }

    open spec fn is_positive_spec(self) -> bool {
        self > 0
    }

    open spec fn is_negative_spec(self) -> bool {
        self < 0
    }

    open spec fn from_u64_spec(n: u64) -> Option<Self> {
        if n <= i16::MAX {
            Some(n as i16)
        } else {
            None
        }
    }

    open spec fn to_usize_spec(self) -> Option<usize> {
        if 0 <= self <= usize::MAX {
            Some(self as usize)
        } else {
            None
        }
    }

    open spec fn pow_spec(self, exp: usize) -> Option<Self> {
        checked_pow_i16(self, exp)
    }

    open spec fn text_spec(self) -> Seq<char> {
        int_text(self as int)
    }

    fn zero() -> (r: Self) {
        0
    }

    fn one() -> (r: Self) {
        1
    }

    fn is_zero(&self) -> (b: bool) {
        *self == 0
    }

    fn is_one(&self) -> (b: bool) {
        *self == 1
    }

    fn is_positive(&self) -> (b: bool) {
        *self > 0
    }

    fn is_negative(&self) -> (b: bool) {
        *self < 0
    }

    fn from_u64(n: u64) -> (r: Option<Self>) {
        if n as i128 <= i16::MAX as i128 {
            Some(n as i16)
        } else {
            None
        }
    }

    fn to_usize(&self) -> (r: Option<usize>) {
        let wide = *self as i128;
        if wide >= 0 && wide <= usize::MAX as i128 {
            Some(wide as usize)
        } else {
            None
        }
    }

    fn checked_pow(&self, exp: usize) -> (r: Option<Self>) {
        pow_i16(*self, exp)
    }

    fn to_text(&self) -> (s: String) {
        int_to_string(*self as i128)
    }

    fn same(&self, other: &Self) -> (b: bool) {
        *self == *other
    }

    proof fn lemma_zero_is_not_one() {
    }

    proof fn lemma_numbers_render(x: Self) {
    }
}

/// What `num_traits::checked_pow` returns for a base of type `i32`.
pub uninterp spec fn checked_pow_i32(base: i32, exp: usize) -> Option<i32>;

/// Calls `num_traits::checked_pow` on an `i32`: repeated checked multiplication by
/// squaring. Exponent zero gives one; a value that comes back is the exact power.
#[verifier::external_body]
fn pow_i32(base: i32, exp: usize) -> (r: Option<i32>)
    ensures
        r == checked_pow_i32(base, exp),
        exp == 0 ==> r == Some(1 as i32),
        r matches Some(v) ==> v as int == pow(base as int, exp as nat),
{
    num_traits::checked_pow(base, exp)
}

impl LaTeXable for i32 {
    open spec fn renderable(&self) -> bool {
        true
    }

    open spec fn latex_spec(&self) -> Seq<char> {
        int_text(*self as int)
    }

    open spec fn latex_single_spec(&self) -> Seq<char> {
        int_text(*self as int)
    }

    fn to_latex(&self) -> (s: String) {
        int_to_string(*self as i128)
    }

    fn to_latex_single(&self) -> (s: String) {
        int_to_string(*self as i128)
    }
}

impl CheckedOps for i32 {
    open spec fn add_spec(self, rhs: Self) -> Option<Self> {
        if i32::MIN <= self + rhs <= i32::MAX {
            Some((self + rhs) as i32)
        } else {
            None
        }
    }

    open spec fn sub_spec(self, rhs: Self) -> Option<Self> {
        if i32::MIN <= self - rhs <= i32::MAX {
            Some((self - rhs) as i32)
        } else {
            None
        }
    }

    open spec fn mul_spec(self, rhs: Self) -> Option<Self> {
        if i32::MIN <= self * rhs <= i32::MAX {
            Some((self * rhs) as i32)
        } else {
            None
        }
    }

    /// The quotient rounded towards zero; nothing for a zero divisor and for the
    /// one quotient that does not fit.
    open spec fn div_spec(self, rhs: Self) -> Option<Self> {
        if rhs == 0 || (self == i32::MIN && rhs == -1) {
            None
        } else {
            Some(truncated_quotient(self as int, rhs as int) as i32)
        }
    }

    fn checked_add(&self, rhs: &Self) -> (r: Option<Self>) {
        i32::checked_add(*self, *rhs)
    }

    fn checked_sub(&self, rhs: &Self) -> (r: Option<Self>) {
        i32::checked_sub(*self, *rhs)
    }

    fn checked_mul(&self, rhs: &Self) -> (r: Option<Self>) {
        i32::checked_mul(*self, *rhs)
    }

    fn checked_div(&self, rhs: &Self) -> (r: Option<Self>) {
        if *rhs == 0 {
            return None;
        }
        proof {
            lemma_truncated_quotient_bounds(*self as int, *rhs as int);
        }
        i32::checked_div(*self, *rhs)
    }
}

impl MatrixNumber for i32 {
    open spec fn zero_spec() -> Self {
        0
    }

    open spec fn one_spec() -> Self {
        1
    }

    open spec fn is_positive_spec(self) -> bool {
        self > 0
    }

    open spec fn is_negative_spec(self) -> bool {
        self < 0
    }

    open spec fn from_u64_spec(n: u64) -> Option<Self> {
        if n <= i32::MAX {
            Some(n as i32)
        } else {
            None
        }
    }

    open spec fn to_usize_spec(self) -> Option<usize> {
        if 0 <= self <= usize::MAX {
            Some(self as usize)
        } else {
            None
        }
    }

    open spec fn pow_spec(self, exp: usize) -> Option<Self> {
        checked_pow_i32(self, exp)
    }

    open spec fn text_spec(self) -> Seq<char> {
        int_text(self as int)
    }

    fn zero() -> (r: Self) {
        0
    }

    fn one() -> (r: Self) {
        1
    }

    fn is_zero(&self) -> (b: bool) {
        *self == 0
    }

    fn is_one(&self) -> (b: bool) {
        *self == 1
    }

    fn is_positive(&self) -> (b: bool) {
        *self > 0
    }

    fn is_negative(&self) -> (b: bool) {
        *self < 0
    }

    fn from_u64(n: u64) -> (r: Option<Self>) {
        if n as i128 <= i32::MAX as i128 {
            Some(n as i32)
        } else {
            None
        }
    }

    fn to_usize(&self) -> (r: Option<usize>) {
        let wide = *self as i128;
        if wide >= 0 && wide <= usize::MAX as i128 {
            Some(wide as usize)
        } else {
            None
        }
    }

    fn checked_pow(&self, exp: usize) -> (r: Option<Self>) {
        pow_i32(*self, exp)
    }

    fn to_text(&self) -> (s: String) {
        int_to_string(*self as i128)
    }

    fn same(&self, other: &Self) -> (b: bool) {
        *self == *other
    }

    proof fn lemma_zero_is_not_one() {
    }

    proof fn lemma_numbers_render(x: Self) {
    }
}

/// What `num_traits::checked_pow` returns for a base of type `i64`.
pub uninterp spec fn checked_pow_i64(base: i64, exp: usize) -> Option<i64>;

/// Calls `num_traits::checked_pow` on an `i64`: repeated checked multiplication by
/// squaring. Exponent zero gives one; a value that comes back is the exact power.
#[verifier::external_body]
fn pow_i64(base: i64, exp: usize) -> (r: Option<i64>)
    ensures
        r == checked_pow_i64(base, exp),
        exp == 0 ==> r == Some(1 as i64),
        r matches Some(v) ==> v as int == pow(base as int, exp as nat),
{
    num_traits::checked_pow(base, exp)
}

impl LaTeXable for i64 {
    open spec fn renderable(&self) -> bool {
        true
    }

    open spec fn latex_spec(&self) -> Seq<char> {
        int_text(*self as int)
    }

    open spec fn latex_single_spec(&self) -> Seq<char> {
        int_text(*self as int)
    }

    fn to_latex(&self) -> (s: String) {
        int_to_string(*self as i128)
    }

    fn to_latex_single(&self) -> (s: String) {
        int_to_string(*self as i128)
    }
}

impl CheckedOps for i64 {
    open spec fn add_spec(self, rhs: Self) -> Option<Self> {
        if i64::MIN <= self + rhs <= i64::MAX {
            Some((self + rhs) as i64)
        } else {
            None
        }
    }

    open spec fn sub_spec(self, rhs: Self) -> Option<Self> {
        if i64::MIN <= self - rhs <= i64::MAX {
            Some((self - rhs) as i64)
        } else {
            None
        }
    }

    open spec fn mul_spec(self, rhs: Self) -> Option<Self> {
        if i64::MIN <= self * rhs <= i64::MAX {
            Some((self * rhs) as i64)
        } else {
            None
        }
    }

    /// The quotient rounded towards zero; nothing for a zero divisor and for the
    /// one quotient that does not fit.
    open spec fn div_spec(self, rhs: Self) -> Option<Self> {
        if rhs == 0 || (self == i64::MIN && rhs == -1) {
            None
        } else {
            Some(truncated_quotient(self as int, rhs as int) as i64)
        }
    }

    fn checked_add(&self, rhs: &Self) -> (r: Option<Self>) {
        i64::checked_add(*self, *rhs)
    }

    fn checked_sub(&self, rhs: &Self) -> (r: Option<Self>) {
        i64::checked_sub(*self, *rhs)
    }

    fn checked_mul(&self, rhs: &Self) -> (r: Option<Self>) {
        i64::checked_mul(*self, *rhs)
    }

    fn checked_div(&self, rhs: &Self) -> (r: Option<Self>) {
        if *rhs == 0 {
            return None;
        }
        proof {
            lemma_truncated_quotient_bounds(*self as int, *rhs as int);
        }
        i64::checked_div(*self, *rhs)
    }
}

impl MatrixNumber for i64 {
    open spec fn zero_spec() -> Self {
        0
    }

    open spec fn one_spec() -> Self {
        1
    }

    open spec fn is_positive_spec(self) -> bool {
        self > 0
    }

    open spec fn is_negative_spec(self) -> bool {
        self < 0
    }

    open spec fn from_u64_spec(n: u64) -> Option<Self> {
        if n <= i64::MAX {
            Some(n as i64)
        } else {
            None
        }
    }

    open spec fn to_usize_spec(self) -> Option<usize> {
        if 0 <= self <= usize::MAX {
            Some(self as usize)
        } else {
            None
        }
    }

    open spec fn pow_spec(self, exp: usize) -> Option<Self> {
        checked_pow_i64(self, exp)
    }

    open spec fn text_spec(self) -> Seq<char> {
        int_text(self as int)
    }

    fn zero() -> (r: Self) {
        0
    }

    fn one() -> (r: Self) {
        1
    }

    fn is_zero(&self) -> (b: bool) {
        *self == 0
    }

    fn is_one(&self) -> (b: bool) {
        *self == 1
    }

    fn is_positive(&self) -> (b: bool) {
        *self > 0
    }

    fn is_negative(&self) -> (b: bool) {
        *self < 0
    }

    fn from_u64(n: u64) -> (r: Option<Self>) {
        if n as i128 <= i64::MAX as i128 {
            Some(n as i64)
        } else {
            None
        }
    }

    fn to_usize(&self) -> (r: Option<usize>) {
        let wide = *self as i128;
        if wide >= 0 && wide <= usize::MAX as i128 {
            Some(wide as usize)
        } else {
            None
        }
    }

    fn checked_pow(&self, exp: usize) -> (r: Option<Self>) {
        pow_i64(*self, exp)
    }

    fn to_text(&self) -> (s: String) {
        int_to_string(*self as i128)
    }

    fn same(&self, other: &Self) -> (b: bool) {
        *self == *other
    }

    proof fn lemma_zero_is_not_one() {
    }

    proof fn lemma_numbers_render(x: Self) {
    }
}

/// What `num_traits::checked_pow` returns for a base of type `i128`.
pub uninterp spec fn checked_pow_i128(base: i128, exp: usize) -> Option<i128>;

/// Calls `num_traits::checked_pow` on an `i128`: repeated checked multiplication by
/// squaring. Exponent zero gives one; a value that comes back is the exact power.
#[verifier::external_body]
fn pow_i128(base: i128, exp: usize) -> (r: Option<i128>)
    ensures
        r == checked_pow_i128(base, exp),
        exp == 0 ==> r == Some(1 as i128),
        r matches Some(v) ==> v as int == pow(base as int, exp as nat),
{
    num_traits::checked_pow(base, exp)
}

impl LaTeXable for i128 {
    open spec fn renderable(&self) -> bool {
        true
    }

    open spec fn latex_spec(&self) -> Seq<char> {
        int_text(*self as int)
    }

    open spec fn latex_single_spec(&self) -> Seq<char> {
        int_text(*self as int)
    }

    fn to_latex(&self) -> (s: String) {
        int_to_string(*self as i128)
    }

    fn to_latex_single(&self) -> (s: String) {
        int_to_string(*self as i128)
    }
}

impl CheckedOps for i128 {
    open spec fn add_spec(self, rhs: Self) -> Option<Self> {
        if i128::MIN <= self + rhs <= i128::MAX {
            Some((self + rhs) as i128)
        } else {
            None
        }
    }

    open spec fn sub_spec(self, rhs: Self) -> Option<Self> {
        if i128::MIN <= self - rhs <= i128::MAX {
            Some((self - rhs) as i128)
        } else {
            None
        }
    }

    open spec fn mul_spec(self, rhs: Self) -> Option<Self> {
        if i128::MIN <= self * rhs <= i128::MAX {
            Some((self * rhs) as i128)
        } else {
            None
        }
    }

    /// The quotient rounded towards zero; nothing for a zero divisor and for the
    /// one quotient that does not fit.
    open spec fn div_spec(self, rhs: Self) -> Option<Self> {
        if rhs == 0 || (self == i128::MIN && rhs == -1) {
            None
        } else {
            Some(truncated_quotient(self as int, rhs as int) as i128)
        }
    }

    fn checked_add(&self, rhs: &Self) -> (r: Option<Self>) {
        i128::checked_add(*self, *rhs)
    }

    fn checked_sub(&self, rhs: &Self) -> (r: Option<Self>) {
        i128::checked_sub(*self, *rhs)
    }

    fn checked_mul(&self, rhs: &Self) -> (r: Option<Self>) {
        i128::checked_mul(*self, *rhs)
    }

    fn checked_div(&self, rhs: &Self) -> (r: Option<Self>) {
        if *rhs == 0 {
            return None;
        }
        proof {
            lemma_truncated_quotient_bounds(*self as int, *rhs as int);
        }
        i128::checked_div(*self, *rhs)
    }
}

impl MatrixNumber for i128 {
    open spec fn zero_spec() -> Self {
        0
    }

    open spec fn one_spec() -> Self {
        1
    }

    open spec fn is_positive_spec(self) -> bool {
        self > 0
    }

    open spec fn is_negative_spec(self) -> bool {
        self < 0
    }

    open spec fn from_u64_spec(n: u64) -> Option<Self> {
        if n <= i128::MAX {
            Some(n as i128)
        } else {
            None
        }
    }

    open spec fn to_usize_spec(self) -> Option<usize> {
        if 0 <= self <= usize::MAX {
            Some(self as usize)
        } else {
            None
        }
    }

    open spec fn pow_spec(self, exp: usize) -> Option<Self> {
        checked_pow_i128(self, exp)
    }

    open spec fn text_spec(self) -> Seq<char> {
        int_text(self as int)
    }

    fn zero() -> (r: Self) {
        0
    }

    fn one() -> (r: Self) {
        1
    }

    fn is_zero(&self) -> (b: bool) {
        *self == 0
    }

    fn is_one(&self) -> (b: bool) {
        *self == 1
    }

    fn is_positive(&self) -> (b: bool) {
        *self > 0
    }

    fn is_negative(&self) -> (b: bool) {
        *self < 0
    }

    fn from_u64(n: u64) -> (r: Option<Self>) {
        if n as i128 <= i128::MAX as i128 {
            Some(n as i128)
        } else {
            None
        }
    }

    fn to_usize(&self) -> (r: Option<usize>) {
        let wide = *self as i128;
        if wide >= 0 && wide <= usize::MAX as i128 {
            Some(wide as usize)
        } else {
            None
        }
    }

    fn checked_pow(&self, exp: usize) -> (r: Option<Self>) {
        pow_i128(*self, exp)
    }

    fn to_text(&self) -> (s: String) {
        int_to_string(*self as i128)
    }

    fn same(&self, other: &Self) -> (b: bool) {
        *self == *other
    }

    proof fn lemma_zero_is_not_one() {
    }

    proof fn lemma_numbers_render(x: Self) {
    }
}

/// What `num_traits::checked_pow` returns for a base of type `isize`.
pub uninterp spec fn checked_pow_isize(base: isize, exp: usize) -> Option<isize>;

/// Calls `num_traits::checked_pow` on an `isize`: repeated checked multiplication by
/// squaring. Exponent zero gives one; a value that comes back is the exact power.
#[verifier::external_body]
fn pow_isize(base: isize, exp: usize) -> (r: Option<isize>)
    ensures
        r == checked_pow_isize(base, exp),
        exp == 0 ==> r == Some(1 as isize),
        r matches Some(v) ==> v as int == pow(base as int, exp as nat),
{
    num_traits::checked_pow(base, exp)
}

impl LaTeXable for isize {
    open spec fn renderable(&self) -> bool {
        true
    }

    open spec fn latex_spec(&self) -> Seq<char> {
        int_text(*self as int)
    }

    open spec fn latex_single_spec(&self) -> Seq<char> {
        int_text(*self as int)
    }

    fn to_latex(&self) -> (s: String) {
        int_to_string(*self as i128)
    }

    fn to_latex_single(&self) -> (s: String) {
        int_to_string(*self as i128)
    }
}

impl CheckedOps for isize {
    open spec fn add_spec(self, rhs: Self) -> Option<Self> {
        if isize::MIN <= self + rhs <= isize::MAX {
            Some((self + rhs) as isize)
        } else {
            None
        }
    }

    open spec fn sub_spec(self, rhs: Self) -> Option<Self> {
        if isize::MIN <= self - rhs <= isize::MAX {
            Some((self - rhs) as isize)
        } else {
            None
        }
    }

    open spec fn mul_spec(self, rhs: Self) -> Option<Self> {
        if isize::MIN <= self * rhs <= isize::MAX {
            Some((self * rhs) as isize)
        } else {
            None
        }
    }

    /// The quotient rounded towards zero; nothing for a zero divisor and for the
    /// one quotient that does not fit.
    open spec fn div_spec(self, rhs: Self) -> Option<Self> {
        if rhs == 0 || (self == isize::MIN && rhs == -1) {
            None
        } else {
            Some(truncated_quotient(self as int, rhs as int) as isize)
        }
    }

    fn checked_add(&self, rhs: &Self) -> (r: Option<Self>) {
        isize::checked_add(*self, *rhs)
    }

    fn checked_sub(&self, rhs: &Self) -> (r: Option<Self>) {
        isize::checked_sub(*self, *rhs)
    }

    fn checked_mul(&self, rhs: &Self) -> (r: Option<Self>) {
        isize::checked_mul(*self, *rhs)
    }

    fn checked_div(&self, rhs: &Self) -> (r: Option<Self>) {
        if *rhs == 0 {
            return None;
        }
        proof {
            lemma_truncated_quotient_bounds(*self as int, *rhs as int);
            assert(isize::MIN as int == -(isize::MAX as int) - 1);
        }
        let r = isize::checked_div(*self, *rhs);
        proof {
            let q = truncated_quotient(*self as int, *rhs as int);
            if *self == isize::MIN && *rhs == -1 {
                assert(((*self as int) * -1) / ((*rhs as int) * -1) == q);
            } else {
                assert(isize::MIN <= q <= isize::MAX);
                assert(r == Some(q as isize));
            }
        }
        r
    }
}

impl MatrixNumber for isize {
    open spec fn zero_spec() -> Self {
        0
    }

    open spec fn one_spec() -> Self {
        1
    }

    open spec fn is_positive_spec(self) -> bool {
        self > 0
    }

    open spec fn is_negative_spec(self) -> bool {
        self < 0
    }

    open spec fn from_u64_spec(n: u64) -> Option<Self> {
        if n <= isize::MAX {
            Some(n as isize)
        } else {
            None
        }
    }

    open spec fn to_usize_spec(self) -> Option<usize> {
        if 0 <= self <= usize::MAX {
            Some(self as usize)
        } else {
            None
        }
    }

    open spec fn pow_spec(self, exp: usize) -> Option<Self> {
        checked_pow_isize(self, exp)
    }

    open spec fn text_spec(self) -> Seq<char> {
        int_text(self as int)
    }

    fn zero() -> (r: Self) {
        0
    }

    fn one() -> (r: Self) {
        1
    }

    fn is_zero(&self) -> (b: bool) {
        *self == 0
    }

    fn is_one(&self) -> (b: bool) {
        *self == 1
    }

    fn is_positive(&self) -> (b: bool) {
        *self > 0
    }

    fn is_negative(&self) -> (b: bool) {
        *self < 0
    }

    fn from_u64(n: u64) -> (r: Option<Self>) {
        if n as i128 <= isize::MAX as i128 {
            Some(n as isize)
        } else {
            None
        }
    }

    fn to_usize(&self) -> (r: Option<usize>) {
        let wide = *self as i128;
        if wide >= 0 && wide <= usize::MAX as i128 {
            Some(wide as usize)
        } else {
            None
        }
    }

    fn checked_pow(&self, exp: usize) -> (r: Option<Self>) {
        pow_isize(*self, exp)
    }

    fn to_text(&self) -> (s: String) {
        int_to_string(*self as i128)
    }

    fn same(&self, other: &Self) -> (b: bool) {
        *self == *other
    }

    proof fn lemma_zero_is_not_one() {
    }

    proof fn lemma_numbers_render(x: Self) {
    }
}

} // verus!

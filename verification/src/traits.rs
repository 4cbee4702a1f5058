//! What a number of the calculator can do.

use vstd::prelude::*;

verus! {

/// Values that can be written in LaTeX.
pub trait LaTeXable {
    /// Whether the value can be rendered at all.
    spec fn renderable(&self) -> bool;

    /// The LaTeX text of the value.
    spec fn latex_spec(&self) -> Seq<char>;

    /// The LaTeX text of the value when it stands as a factor next to something else.
    spec fn latex_single_spec(&self) -> Seq<char>;

    fn to_latex(&self) -> (s: String)
        requires
            self.renderable(),
        ensures
            s@ == self.latex_spec(),
    ;

    fn to_latex_single(&self) -> (s: String)
        requires
            self.renderable(),
        ensures
            s@ == self.latex_single_spec(),
    ;
}

/// The four arithmetic operations, each failing with `None` instead of overflowing
/// or dividing by zero.
pub trait CheckedOps: Sized {
    spec fn add_spec(self, rhs: Self) -> Option<Self>;

    spec fn sub_spec(self, rhs: Self) -> Option<Self>;

    spec fn mul_spec(self, rhs: Self) -> Option<Self>;

    spec fn div_spec(self, rhs: Self) -> Option<Self>;

    fn checked_add(&self, rhs: &Self) -> (r: Option<Self>)
        ensures
            r == self.add_spec(*rhs),
    ;

    fn checked_sub(&self, rhs: &Self) -> (r: Option<Self>)
        ensures
            r == self.sub_spec(*rhs),
    ;

    fn checked_mul(&self, rhs: &Self) -> (r: Option<Self>)
        ensures
            r == self.mul_spec(*rhs),
    ;

    fn checked_div(&self, rhs: &Self) -> (r: Option<Self>)
        ensures
            r == self.div_spec(*rhs),
    ;
}

/// What a type must offer to be the element type of a matrix or a scalar of the
/// calculator.
pub trait MatrixNumber: CheckedOps + LaTeXable + Copy {
    spec fn zero_spec() -> Self;

    spec fn one_spec() -> Self;

    spec fn is_positive_spec(self) -> bool;

    spec fn is_negative_spec(self) -> bool;

    /// The value that stands for an unsigned integer literal, if the type can hold it.
    spec fn from_u64_spec(n: u64) -> Option<Self>;

    /// The value as a machine integer, as far as it is one.
    spec fn to_usize_spec(self) -> Option<usize>;

    /// The value raised to a power, `None` on overflow.
    spec fn pow_spec(self, exp: usize) -> Option<Self>;

    /// The plain text of the value.
    spec fn text_spec(self) -> Seq<char>;

    fn zero() -> (r: Self)
        ensures
            r == Self::zero_spec(),
    ;

    fn one() -> (r: Self)
        ensures
            r == Self::one_spec(),
    ;

    fn is_zero(&self) -> (b: bool)
        ensures
            b == (*self == Self::zero_spec()),
    ;

    fn is_one(&self) -> (b: bool)
        ensures
            b == (*self == Self::one_spec()),
    ;

    fn is_positive(&self) -> (b: bool)
        ensures
            b == self.is_positive_spec(),
    ;

    fn is_negative(&self) -> (b: bool)
        ensures
            b == self.is_negative_spec(),
    ;

    fn from_u64(n: u64) -> (r: Option<Self>)
        ensures
            r == Self::from_u64_spec(n),
    ;

    fn to_usize(&self) -> (r: Option<usize>)
        ensures
            r == self.to_usize_spec(),
    ;

    fn checked_pow(&self, exp: usize) -> (r: Option<Self>)
        ensures
            r == self.pow_spec(exp),
    ;

    fn to_text(&self) -> (s: String)
        ensures
            s@ == self.text_spec(),
    ;

    /// Whether two values are the same number.
    fn same(&self, other: &Self) -> (b: bool)
        ensures
            b == (*self == *other),
    ;

    /// Zero and one are different numbers.
    proof fn lemma_zero_is_not_one()
        ensures
            Self::zero_spec() != Self::one_spec(),
    ;

    /// Every number can be rendered.
    proof fn lemma_numbers_render(x: Self)
        ensures
            x.renderable(),
    ;
}

} // verus!

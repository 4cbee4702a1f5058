//! The operators `+`, `-` and `*` on matrices whose result exists.

use crate::error::Error;
use crate::grid::{grid_add, grid_mul, grid_neg, grid_scale, grid_sub, rectangular};
use crate::matrices::Matrix;
use crate::traits::MatrixNumber;
use vstd::pervasive::unreached;
use vstd::prelude::*;
use vstd::std_specs::ops::{AddSpecImpl, MulSpecImpl, NegSpecImpl, SubSpecImpl};

verus! {

impl<T: MatrixNumber> core::ops::Add for Matrix<T> {
    type Output = Self;

    /// The entry-wise sum of two matrices whose sum exists.
    fn add(self, rhs: Self) -> (ret: Self)
        ensures
            grid_add(self@, rhs@) == Ok::<Seq<Seq<T>>, Error>(ret@),
            ret.separator.is_none(),
    {
        match self.checked_add(&rhs) {
            Ok(m) => m,
            Err(_) => unreached(),
        }
    }
}

impl<T: MatrixNumber> AddSpecImpl for Matrix<T> {
    open spec fn obeys_add_spec() -> bool {
        false
    }

    open spec fn add_req(self, rhs: Self) -> bool {
        rectangular(self@) && rectangular(rhs@) && grid_add(self@, rhs@).is_ok()
    }

    open spec fn add_spec(self, rhs: Self) -> Self {
        self
    }
}

impl<T: MatrixNumber> core::ops::Sub for Matrix<T> {
    type Output = Self;

    /// The entry-wise difference of two matrices whose difference exists.
    fn sub(self, rhs: Self) -> (ret: Self)
        ensures
            grid_sub(self@, rhs@) == Ok::<Seq<Seq<T>>, Error>(ret@),
            ret.separator.is_none(),
    {
        match self.checked_sub(&rhs) {
            Ok(m) => m,
            Err(_) => unreached(),
        }
    }
}

impl<T: MatrixNumber> SubSpecImpl for Matrix<T> {
    open spec fn obeys_sub_spec() -> bool {
        false
    }

    open spec fn sub_req(self, rhs: Self) -> bool {
        rectangular(self@) && rectangular(rhs@) && grid_sub(self@, rhs@).is_ok()
    }

    open spec fn sub_spec(self, rhs: Self) -> Self {
        self
    }
}

impl<T: MatrixNumber> core::ops::Neg for Matrix<T> {
    type Output = Self;

    /// The negation of a matrix whose negation exists.
    fn neg(self) -> (ret: Self)
        ensures
            grid_neg(self@) == Ok::<Seq<Seq<T>>, Error>(ret@),
            ret.separator.is_none(),
    {
        match self.checked_neg() {
            Ok(m) => m,
            Err(_) => unreached(),
        }
    }
}

impl<T: MatrixNumber> NegSpecImpl for Matrix<T> {
    open spec fn obeys_neg_spec() -> bool {
        false
    }

    open spec fn neg_req(self) -> bool {
        rectangular(self@) && grid_neg(self@).is_ok()
    }

    open spec fn neg_spec(self) -> Self {
        self
    }
}

impl<T: MatrixNumber> core::ops::Mul<Matrix<T>> for Matrix<T> {
    type Output = Self;

    /// The product of two matrices whose product exists.
    fn mul(self, rhs: Self) -> (ret: Self)
        ensures
            grid_mul(self@, rhs@) == Ok::<Seq<Seq<T>>, Error>(ret@),
            ret.separator.is_none(),
    {
        match self.checked_mul(&rhs) {
            Ok(m) => m,
            Err(_) => unreached(),
        }
    }
}

impl<T: MatrixNumber> MulSpecImpl<Matrix<T>> for Matrix<T> {
    open spec fn obeys_mul_spec() -> bool {
        false
    }

    open spec fn mul_req(self, rhs: Self) -> bool {
        rectangular(self@) && rectangular(rhs@) && grid_mul(self@, rhs@).is_ok()
    }

    open spec fn mul_spec(self, rhs: Self) -> Self {
        self
    }
}

impl<T: MatrixNumber> core::ops::Mul<T> for Matrix<T> {
    type Output = Self;

    /// The matrix with every entry multiplied by a number, where that exists.
    fn mul(self, rhs: T) -> (ret: Self)
        ensures
            grid_scale(self@, rhs) == Ok::<Seq<Seq<T>>, Error>(ret@),
            ret.separator.is_none(),
    {
        match self.checked_mul_scl(&rhs) {
            Ok(m) => m,
            Err(_) => unreached(),
        }
    }
}

impl<T: MatrixNumber> MulSpecImpl<T> for Matrix<T> {
    open spec fn obeys_mul_spec() -> bool {
        false
    }

    open spec fn mul_req(self, rhs: T) -> bool {
        rectangular(self@) && grid_scale(self@, rhs).is_ok()
    }

    open spec fn mul_spec(self, rhs: T) -> Self {
        self
    }
}

} // verus!

//! When two matrices are equal.

use crate::grid::matrix_eq;
use crate::matrices::Matrix;
use crate::traits::MatrixNumber;
use vstd::prelude::*;
use vstd::std_specs::cmp::PartialEqSpecImpl;

verus! {

impl<T: MatrixNumber> PartialEq for Matrix<T> {
    /// Two matrices are equal when both are empty or they have the same rows; the
    /// separator does not count.
    fn eq(&self, other: &Self) -> (b: bool) {
        self.equals(other)
    }
}

impl<T: MatrixNumber> PartialEqSpecImpl for Matrix<T> {
    open spec fn obeys_eq_spec() -> bool {
        true
    }

    open spec fn eq_spec(&self, other: &Self) -> bool {
        matrix_eq(self@, other@)
    }
}

impl<T: MatrixNumber> Eq for Matrix<T> {

}

} // verus!

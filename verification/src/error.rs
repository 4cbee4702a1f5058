//! The ways in which the calculator fails.

use vstd::prelude::*;

verus! {

/// Everything that can go wrong while building, combining or parsing values.
#[derive(Debug, Clone, Copy, PartialEq, Eq, Structural)]
pub enum Error {
    /// A character, identifier or integer literal that cannot be read.
    Lex,
    /// Tokens in an order the grammar does not allow, or unbalanced brackets.
    Syntax,
    /// An identifier with no binding in the environment.
    UndefinedIdentifier,
    /// An operator applied to a scalar where a matrix is needed, or the reverse.
    TypeMismatch,
    /// Matrices whose shapes do not fit the operation.
    ShapeMismatch,
    /// Overflow or division by zero in a checked operation.
    ArithmeticFailure,
    /// A square matrix was needed.
    NonSquare,
    /// The matrix has no inverse.
    Singular,
    /// Rows of different lengths, or data that does not fill the shape.
    InvalidMatrix,
    /// Text that is not an identifier.
    InvalidIdentifier,
    /// A matrix with entries was needed.
    EmptyMatrix,
}

/// The description of an error for the user.
pub open spec fn message_of(e: Error) -> Seq<char> {
    match e {
        Error::Lex => "Unreadable token."@,
        Error::Syntax => "Invalid expression!"@,
        Error::UndefinedIdentifier => "Undefined identifier!"@,
        Error::TypeMismatch => "Operation is not supported for these operand kinds!"@,
        Error::ShapeMismatch => "Matrices have incompatible shapes!"@,
        Error::ArithmeticFailure => "Arithmetic operation resulted in overflow!"@,
        Error::NonSquare => "Matrix is not square!"@,
        Error::Singular => "Matrix is not invertible!"@,
        Error::InvalidMatrix => "Invalid matrix."@,
        Error::InvalidIdentifier => "Invalid identifier."@,
        Error::EmptyMatrix => "Cannot calculate inverse of an empty matrix!"@,
    }
}

impl Error {
    /// A short description for the user.
    pub fn message(&self) -> (s: &'static str)
        ensures
            s@ == message_of(*self),
    {
        match self {
            Error::Lex => "Unreadable token.",
            Error::Syntax => "Invalid expression!",
            Error::UndefinedIdentifier => "Undefined identifier!",
            Error::TypeMismatch => "Operation is not supported for these operand kinds!",
            Error::ShapeMismatch => "Matrices have incompatible shapes!",
            Error::ArithmeticFailure => "Arithmetic operation resulted in overflow!",
            Error::NonSquare => "Matrix is not square!",
            Error::Singular => "Matrix is not invertible!",
            Error::InvalidMatrix => "Invalid matrix.",
            Error::InvalidIdentifier => "Invalid identifier.",
            Error::EmptyMatrix => "Cannot calculate inverse of an empty matrix!",
        }
    }
}

} // verus!

//! An exact matrix calculator.
//!
//! Scalars are integers or exact fractions; matrices are grids of them. Texts
//! such as `A * B + 2 * C ^ 3` are evaluated over an environment of named
//! values, matrices are reduced to echelon form and inverted with every step
//! recorded in LaTeX, and all arithmetic is checked: an operation either gives
//! the exact result or fails, it never wraps or rounds.
//!
//! The modules at the top hold the types and functions of the calculator and
//! the functions in which their contracts are stated (`grid`, `reduction`,
//! `evaluation`). The module `theory` holds what is proved of them: that the
//! reduction gives the reduced row echelon form, that the inverse is an
//! inverse, that powers add up, and that the value of a text is the value of
//! the expression that it is written for.

pub mod chars;
pub mod conversion;
pub mod editor;
pub mod environment;
pub mod equality;
pub mod error;
pub mod evaluation;
pub mod grid;
pub mod integers;
pub mod lexer;
pub mod locale;
pub mod matrices;
pub mod matrix_algorithms;
pub mod operators;
pub mod order;
pub mod parser;
pub mod rationals;
pub mod reduction;
pub mod sampling;
pub mod text;
pub mod theory;
pub mod traits;
pub mod windows;

//! What is proved of the calculator, beyond the contracts of its functions.
//!
//! `fractions`, `field` and `linear` build the arithmetic of exact fractions and
//! of matrices of them; `sums` does the same for integers. On these rest the
//! statements about the calculator itself: `reduced`, `echelon_form` and `trace`
//! about the reduction to echelon form, `inversion` and `singular` about the
//! inverse, `exact` and `powers` about powers, and `grammar` and `parsing`
//! about the evaluation of texts: `grammar` shows that a text written for an
//! expression has the value of the expression, `parsing` that no other text has
//! a value.

pub mod echelon_form;
pub mod exact;
pub mod field;
pub mod fractions;
pub mod grammar;
pub mod inversion;
pub mod linear;
pub mod parsing;
pub mod powers;
pub mod reduced;
pub mod singular;
pub mod sums;
pub mod trace;

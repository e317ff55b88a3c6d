//! A calculator for arithmetic over single decimal digits.
//!
//! Text is turned into tokens, the tokens are reordered from infix to
//! postfix, and the postfix sequence is evaluated on a stack of integers.
//! Every stage states what it computes over a mathematical model, and the
//! statements are machine-checked.

use vstd::prelude::*;

pub mod eval;
pub mod postfix;
pub mod syntax;
pub mod token;
pub mod tokenizer;

pub use token::{Error, Operator, Token};

verus! {

/// The three stages of the calculator, as associated functions:
/// [`Calculator::parse`], [`Calculator::expression`] and
/// [`Calculator::evaluate`].
pub struct Calculator {}

} // verus!

//! The symbols of an expression and the ways an expression can be wrong.

use vstd::prelude::*;

verus! {

/// A binary operator. The declaration order gives the derived ordering
/// `Add < Subtract < Multiply < Divide`; how tightly an operator binds is
/// given by [`Operator::precedence`], not by that ordering.
#[derive(Debug, Clone, Copy, PartialEq, Eq, PartialOrd, Ord, Structural)]
pub enum Operator {
    Add,
    Subtract,
    Multiply,
    Divide,
}

/// One symbol of an expression.
#[derive(Debug, Clone, Copy, PartialEq, Eq, PartialOrd, Ord, Structural)]
pub enum Token {
    /// A single decimal digit, by its value.
    Number(u32),
    /// A binary operator.
    Op(Operator),
    /// A parenthesis, by its character: `'('` or `')'`.
    Bracket(char),
}

/// What can be wrong with an expression.
#[derive(Debug, Clone, Copy, PartialEq, Eq, Structural)]
pub enum Error {
    /// A character that is no digit, operator, parenthesis or newline.
    InvalidToken,
    /// Kept for stricter validation; nothing returns it.
    InvalidExpression,
    /// Kept for stricter validation; nothing returns it.
    InvalidOperator,
    /// Kept for stricter validation; nothing returns it.
    InvalidNumber,
    /// Kept for stricter validation; nothing returns it.
    InvalidBracket,
    /// A parenthesis without its partner.
    InvalidParenthesis,
    /// A division whose right operand is zero.
    InvalidDivisionByZero,
}

impl Operator {
    /// How tightly the operator binds: 1 for `Add` and `Subtract`, 2 for
    /// `Multiply` and `Divide`.
    pub open spec fn level(self) -> nat {
        match self {
            Operator::Add | Operator::Subtract => 1,
            Operator::Multiply | Operator::Divide => 2,
        }
    }

    /// The mathematical result of the operator on `left` and `right`.
    /// Division rounds toward zero on non-negative operands; the result for
    /// a zero divisor is left open.
    pub open spec fn apply(self, left: int, right: int) -> int {
        match self {
            Operator::Add => left + right,
            Operator::Subtract => left - right,
            Operator::Multiply => left * right,
            Operator::Divide => left / right,
        }
    }

    /// The binding strength of the operator.
    pub fn precedence(self) -> (p: u8)
        ensures
            p == self.level(),
    {
        match self {
            Operator::Add | Operator::Subtract => 1,
            Operator::Multiply | Operator::Divide => 2,
        }
    }
}

/// The number of `'('` among `tokens` minus the number of `')'`.
pub open spec fn nesting(tokens: Seq<Token>) -> int
    decreases tokens.len(),
{
    if tokens.len() == 0 {
        0
    } else if tokens.last() == Token::Bracket('(') {
        nesting(tokens.drop_last()) + 1
    } else if tokens.last() == Token::Bracket(')') {
        nesting(tokens.drop_last()) - 1
    } else {
        nesting(tokens.drop_last())
    }
}

/// Whether no prefix of `tokens` closes more parentheses than it has
/// opened.
pub open spec fn never_closes_early(tokens: Seq<Token>) -> bool {
    forall|k: int| 0 <= k <= tokens.len() ==> #[trigger] nesting(tokens.take(k)) >= 0
}

/// Whether every `')'` among `tokens` has its `'('` before it and every
/// `'('` its `')'` after it.
pub open spec fn well_nested(tokens: Seq<Token>) -> bool {
    never_closes_early(tokens) && nesting(tokens) == 0
}

/// Whether no token of `tokens` is a parenthesis.
pub open spec fn free_of_brackets(tokens: Seq<Token>) -> bool {
    forall|i: int| 0 <= i < tokens.len() ==> !((#[trigger] tokens[i]) is Bracket)
}

} // verus!

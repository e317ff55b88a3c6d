//! The value of a postfix sequence.

use vstd::prelude::*;
use crate::token::{Error, Operator, Token};
use crate::Calculator;

verus! {

/// Where an evaluation stands after some tokens.
pub enum Outcome {
    /// Every token so far was consumed; the values that wait, the last on
    /// top.
    Values(Seq<u32>),
    /// An operator found fewer than two values.
    Starved,
    /// A division found zero as its right operand.
    DividedByZero,
    /// An operator's result was negative or above `u32::MAX`.
    OutOfRange,
}

/// The evaluation after one more token, from the values that wait. An
/// operator takes the top value as its right operand and the one below as
/// its left operand; a parenthesis changes nothing.
pub open spec fn advance(stack: Seq<u32>, token: Token) -> Outcome {
    match token {
        Token::Number(n) => Outcome::Values(stack.push(n)),
        Token::Bracket(_) => Outcome::Values(stack),
        Token::Op(op) => if stack.len() < 2 {
            Outcome::Starved
        } else {
            let right = stack[stack.len() - 1];
            let left = stack[stack.len() - 2];
            let result = op.apply(left as int, right as int);
            if op == Operator::Divide && right == 0 {
                Outcome::DividedByZero
            } else if result < 0 || result > u32::MAX {
                Outcome::OutOfRange
            } else {
                Outcome::Values(stack.take(stack.len() - 2).push(result as u32))
            }
        },
    }
}

/// The evaluation that stood at `start`, after the further tokens of
/// `tokens` in their order. The first token that ends it decides; later
/// ones are not looked at.
pub open spec fn resume(start: Outcome, tokens: Seq<Token>) -> Outcome
    decreases tokens.len(),
{
    if tokens.len() == 0 {
        start
    } else {
        match resume(start, tokens.drop_last()) {
            Outcome::Values(stack) => advance(stack, tokens.last()),
            ended => ended,
        }
    }
}

/// The evaluation after the tokens of `tokens`, taken in their order from
/// an empty stack.
pub open spec fn after(tokens: Seq<Token>) -> Outcome {
    resume(Outcome::Values(Seq::empty()), tokens)
}

/// Whether `tokens` can be evaluated with 32-bit unsigned values: no
/// operator that is reached gives a result out of range.
pub open spec fn evaluable(tokens: Seq<Token>) -> bool {
    !(after(tokens) is OutOfRange)
}

/// The value of an evaluable postfix sequence: the value that is left if
/// exactly one is, the error of a division by zero, or nothing where an
/// operator lacks an operand, or where no value or more than one is left.
pub open spec fn value_of(tokens: Seq<Token>) -> Option<Result<u32, Error>> {
    match after(tokens) {
        Outcome::Values(stack) => if stack.len() == 1 {
            Some(Ok(stack[0]))
        } else {
            None
        },
        Outcome::DividedByZero => Some(Err(Error::InvalidDivisionByZero)),
        _ => None,
    }
}

/// How a run over a sequence ended, with the values that it left.
enum Ending {
    Values(Vec<u32>),
    Starved,
    DividedByZero,
    OutOfRange,
}

impl Ending {
    /// The ending as an outcome of the model.
    spec fn outcome(self) -> Outcome {
        match self {
            Ending::Values(stack) => Outcome::Values(stack@),
            Ending::Starved => Outcome::Starved,
            Ending::DividedByZero => Outcome::DividedByZero,
            Ending::OutOfRange => Outcome::OutOfRange,
        }
    }
}

/// Evaluating `first + second` is evaluating `first` and then `second`.
pub proof fn lemma_resume_concat(start: Outcome, first: Seq<Token>, second: Seq<Token>)
    ensures
        resume(start, first + second) == resume(resume(start, first), second),
    decreases second.len(),
{
    if second.len() == 0 {
    } else {
        assert((first + second).drop_last() =~= first + second.drop_last());
        lemma_resume_concat(start, first, second.drop_last());
    }
}

/// Once an evaluation has ended, further tokens do not change how.
pub proof fn lemma_ended_stays(ended: Outcome, tokens: Seq<Token>)
    requires
        !(ended is Values),
    ensures
        resume(ended, tokens) == ended,
    decreases tokens.len(),
{
    if tokens.len() > 0 {
        lemma_ended_stays(ended, tokens.drop_last());
    }
}

/// An evaluation that has ended after the first `n` tokens has ended so
/// after all of them.
pub proof fn lemma_prefix_decides(tokens: Seq<Token>, n: int)
    requires
        0 <= n <= tokens.len(),
        !(after(tokens.take(n)) is Values),
    ensures
        after(tokens) == after(tokens.take(n)),
{
    assert(tokens =~= tokens.take(n) + tokens.skip(n));
    lemma_resume_concat(Outcome::Values(Seq::empty()), tokens.take(n), tokens.skip(n));
    lemma_ended_stays(after(tokens.take(n)), tokens.skip(n));
}

impl Calculator {
    /// Evaluates the postfix sequence `tokens` on a stack of values. The
    /// values are 32-bit and unsigned: a sequence that takes one out of that
    /// range has no value and must not be passed;
    /// [`Calculator::can_evaluate`] tells. A sequence that leaves no value,
    /// as an empty one does, gives `None`.
    pub fn evaluate(tokens: Vec<Token>) -> (r: Option<Result<u32, Error>>)
        requires
            evaluable(tokens@),
        ensures
            r == value_of(tokens@),
    {
        match Self::run(&tokens) {
            Ending::Values(stack) => {
                if stack.len() != 1 {
                    return None;
                }
                Some(Ok(stack[0]))
            },
            Ending::DividedByZero => Some(Err(Error::InvalidDivisionByZero)),
            Ending::Starved | Ending::OutOfRange => None,
        }
    }

    /// Whether [`Calculator::evaluate`] can be called on `tokens`: whether
    /// every result on the way stays within 32 unsigned bits.
    pub fn can_evaluate(tokens: &Vec<Token>) -> (b: bool)
        ensures
            b == evaluable(tokens@),
    {
        match Self::run(tokens) {
            Ending::OutOfRange => false,
            _ => true,
        }
    }

    /// Runs the stack over `tokens` and says how the run ended.
    fn run(tokens: &Vec<Token>) -> (end: Ending)
        ensures
            end.outcome() == after(tokens@),
    {
        let mut stack: Vec<u32> = Vec::new();
        let mut i: usize = 0;
        assert(tokens@.take(0) =~= Seq::<Token>::empty());
        while i < tokens.len()
            invariant
                i <= tokens.len(),
                after(tokens@.take(i as int)) == Outcome::Values(stack@),
            decreases tokens.len() - i,
        {
            let token = tokens[i];
            proof {
                assert(tokens@.take(i + 1).drop_last() =~= tokens@.take(i as int));
                if !(after(tokens@.take(i + 1)) is Values) {
                    lemma_prefix_decides(tokens@, i + 1);
                }
            }
            match token {
                Token::Number(n) => {
                    stack.push(n);
                },
                Token::Op(op) => {
                    if stack.len() < 2 {
                        return Ending::Starved;
                    }
                    let ghost waiting = stack@;
                    let right = stack.pop().unwrap();
                    let left = stack.pop().unwrap();
                    assert(stack@ =~= waiting.take(waiting.len() - 2));
                    let result = match op {
                        Operator::Add => left.checked_add(right),
                        Operator::Subtract => left.checked_sub(right),
                        Operator::Multiply => left.checked_mul(right),
                        Operator::Divide => {
                            if right == 0 {
                                return Ending::DividedByZero;
                            }
                            Some(left / right)
                        },
                    };
                    match result {
                        Some(value) => stack.push(value),
                        None => {
                            return Ending::OutOfRange;
                        },
                    }
                },
                Token::Bracket(_) => {},
            }
            i += 1;
        }
        assert(tokens@.take(tokens.len() as int) =~= tokens@);
        Ending::Values(stack)
    }
}

} // verus!

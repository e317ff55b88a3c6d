//! Expressions as trees, and what the three stages make of them.

use vstd::prelude::*;
use crate::eval::{
    evaluable, lemma_ended_stays, lemma_resume_concat, resume, value_of, Outcome,
};
use crate::postfix::{
    discard_top, feed, feed_all, lemma_feed_all_concat, postfix_of, release_for, release_group,
    Yard,
};
use crate::token::{Error, Operator, Token};
use crate::tokenizer::{
    depth, legible, lemma_text_concat, never_negative, scan, token_of, tokens_of,
};

verus! {

/// An arithmetic expression.
pub enum Expr {
    /// A number.
    Digit(u32),
    /// An operator between its left and its right operand.
    Binary(Operator, Box<Expr>, Box<Expr>),
    /// An expression in parentheses.
    Group(Box<Expr>),
}

/// What an expression comes to.
pub enum Meaning {
    /// A value.
    Value(u32),
    /// A division by zero was met first.
    DividedByZero,
    /// A result that is negative or above `u32::MAX` was met first.
    OutOfRange,
}

/// The character that stands for the digit `n`.
pub open spec fn digit_char(n: u32) -> char {
    ('0' as u32 + n) as char
}

/// The character that stands for `op`.
pub open spec fn operator_char(op: Operator) -> char {
    match op {
        Operator::Add => '+',
        Operator::Subtract => '-',
        Operator::Multiply => '*',
        Operator::Divide => '/',
    }
}

impl Expr {
    /// Whether every number of the expression is a single decimal digit.
    pub open spec fn single_digits(self) -> bool
        decreases self,
    {
        match self {
            Expr::Digit(n) => n <= 9,
            Expr::Binary(_, left, right) => left.single_digits() && right.single_digits(),
            Expr::Group(inner) => inner.single_digits(),
        }
    }

    /// The expression as text, one character for each token of its infix
    /// order.
    pub open spec fn text(self) -> Seq<char>
        decreases self,
    {
        match self {
            Expr::Digit(n) => seq![digit_char(n)],
            Expr::Binary(op, left, right) => left.text() + seq![operator_char(op)] + right.text(),
            Expr::Group(inner) => seq!['('] + inner.text() + seq![')'],
        }
    }

    /// The expression written in infix order.
    pub open spec fn infix(self) -> Seq<Token>
        decreases self,
    {
        match self {
            Expr::Digit(n) => seq![Token::Number(n)],
            Expr::Binary(op, left, right) => left.infix() + seq![Token::Op(op)] + right.infix(),
            Expr::Group(inner) => seq![Token::Bracket('(')] + inner.infix() + seq![
                Token::Bracket(')'),
            ],
        }
    }

    /// The expression written in postfix order: each operator after its two
    /// operands, and no parentheses.
    pub open spec fn postfix(self) -> Seq<Token>
        decreases self,
    {
        match self {
            Expr::Digit(n) => seq![Token::Number(n)],
            Expr::Binary(op, left, right) => left.postfix() + right.postfix() + seq![
                Token::Op(op),
            ],
            Expr::Group(inner) => inner.postfix(),
        }
    }

    /// How tightly the expression holds together: as its operator binds, and
    /// more tightly than any operator if it is a number or in parentheses.
    pub open spec fn binds(self) -> nat {
        match self {
            Expr::Binary(op, _, _) => op.level(),
            _ => 3,
        }
    }

    /// Whether the tree is the one that its infix order is read as: a left
    /// operand binds at least as tightly as its operator, a right operand
    /// more tightly, so that operators of equal strength apply from left to
    /// right.
    pub open spec fn plain(self) -> bool
        decreases self,
    {
        match self {
            Expr::Digit(_) => true,
            Expr::Binary(op, left, right) => {
                &&& left.plain()
                &&& right.plain()
                &&& left.binds() >= op.level()
                &&& right.binds() > op.level()
            },
            Expr::Group(inner) => inner.plain(),
        }
    }

    /// What the expression comes to, the left operand taken before the right
    /// one.
    pub open spec fn meaning(self) -> Meaning
        decreases self,
    {
        match self {
            Expr::Digit(n) => Meaning::Value(n),
            Expr::Binary(op, left, right) => match left.meaning() {
                Meaning::Value(a) => match right.meaning() {
                    Meaning::Value(b) => {
                        let result = op.apply(a as int, b as int);
                        if op == Operator::Divide && b == 0 {
                            Meaning::DividedByZero
                        } else if result < 0 || result > u32::MAX {
                            Meaning::OutOfRange
                        } else {
                            Meaning::Value(result as u32)
                        }
                    },
                    failed => failed,
                },
                failed => failed,
            },
            Expr::Group(inner) => inner.meaning(),
        }
    }

    /// The operators of the expression that still wait on the stack when its
    /// infix order has been fed to a yard.
    spec fn pending(self) -> Seq<Token>
        decreases self,
    {
        match self {
            Expr::Binary(op, _, right) => seq![Token::Op(op)] + right.pending(),
            _ => Seq::empty(),
        }
    }

    /// What its infix order has added to the output of a yard.
    spec fn settled(self) -> Seq<Token>
        decreases self,
    {
        match self {
            Expr::Binary(_, left, right) => left.postfix() + right.settled(),
            _ => self.postfix(),
        }
    }
}

/// Whether every token of `tokens` is an operator that binds at least as
/// tightly as `level`.
spec fn operators_from(tokens: Seq<Token>, level: nat) -> bool {
    forall|i: int|
        0 <= i < tokens.len() ==> match #[trigger] tokens[i] {
            Token::Op(op) => op.level() >= level,
            _ => false,
        }
}

/// Whether the top of `stack` stays where it is when an operator of
/// strength `level` or more arrives.
spec fn shielded(stack: Seq<Token>, level: nat) -> bool {
    stack.len() > 0 ==> match stack.last() {
        Token::Op(op) => op.level() < level,
        _ => true,
    }
}

/// What waits is operators that bind as tightly as the expression or
/// more, and what was put out, followed by what waits from the top down, is
/// the postfix order.
proof fn lemma_pending_shape(e: Expr)
    requires
        e.plain(),
    ensures
        operators_from(e.pending(), e.binds()),
        e.settled() + e.pending().reverse() == e.postfix(),
    decreases e,
{
    match e {
        Expr::Binary(op, left, right) => {
            lemma_pending_shape(*right);
            assert(e.settled() + e.pending().reverse() =~= left.postfix() + (right.settled()
                + right.pending().reverse()) + seq![Token::Op(op)]);
        },
        _ => {},
    }
}

/// An operator that arrives moves to the output every operator above a
/// shielded stack that binds as tightly as it does or more, and stops there.
proof fn lemma_release_pending_for(yard: Yard, pending: Seq<Token>, op: Operator)
    requires
        operators_from(pending, op.level()),
        shielded(yard.stack, op.level()),
    ensures
        release_for(Yard { stack: yard.stack + pending, queue: yard.queue }, op) == (Yard {
            stack: yard.stack,
            queue: yard.queue + pending.reverse(),
        }),
    decreases pending.len(),
{
    let start = Yard { stack: yard.stack + pending, queue: yard.queue };
    if pending.len() > 0 {
        let top = pending.last();
        assert(start.stack.drop_last() =~= yard.stack + pending.drop_last());
        lemma_release_pending_for(
            Yard { stack: yard.stack, queue: yard.queue.push(top) },
            pending.drop_last(),
            op,
        );
        assert(yard.queue.push(top) + pending.drop_last().reverse() =~= yard.queue
            + pending.reverse());
    } else {
        assert(yard.stack + pending =~= yard.stack);
        assert(yard.queue + pending.reverse() =~= yard.queue);
    }
}

/// A `')'` moves to the output every operator above the `'('` that it
/// closes, and stops there.
proof fn lemma_release_pending_group(yard: Yard, pending: Seq<Token>)
    requires
        operators_from(pending, 0),
        yard.stack.len() > 0 ==> yard.stack.last() == Token::Bracket('('),
    ensures
        release_group(Yard { stack: yard.stack + pending, queue: yard.queue }) == (Yard {
            stack: yard.stack,
            queue: yard.queue + pending.reverse(),
        }),
    decreases pending.len(),
{
    let start = Yard { stack: yard.stack + pending, queue: yard.queue };
    if pending.len() > 0 {
        let top = pending.last();
        assert(start.stack.drop_last() =~= yard.stack + pending.drop_last());
        lemma_release_pending_group(
            Yard { stack: yard.stack, queue: yard.queue.push(top) },
            pending.drop_last(),
        );
        assert(yard.queue.push(top) + pending.drop_last().reverse() =~= yard.queue
            + pending.reverse());
    } else {
        assert(yard.stack + pending =~= yard.stack);
        assert(yard.queue + pending.reverse() =~= yard.queue);
    }
}

/// Feeding a sequence of one token is feeding that token.
proof fn lemma_feed_one(yard: Yard, token: Token)
    ensures
        feed_all(yard, seq![token]) == feed(yard, token),
{
    assert(seq![token].drop_last() =~= Seq::<Token>::empty());
    assert(feed_all(yard, seq![token].drop_last()) == yard);
}

/// The infix order of an expression, fed to a yard whose stack is shielded
/// from it, leaves the stack as it was below what then waits, and adds to
/// the output.
proof fn lemma_feed_infix(yard: Yard, e: Expr)
    requires
        e.plain(),
        shielded(yard.stack, e.binds()),
    ensures
        feed_all(yard, e.infix()) == (Yard {
            stack: yard.stack + e.pending(),
            queue: yard.queue + e.settled(),
        }),
    decreases e,
{
    match e {
        Expr::Digit(n) => {
            lemma_feed_one(yard, Token::Number(n));
            assert(yard.stack + e.pending() =~= yard.stack);
            assert(yard.queue + e.settled() =~= yard.queue.push(Token::Number(n)));
        },
        Expr::Binary(op, left, right) => {
            let token = Token::Op(op);
            let after_left = feed_all(yard, left.infix());
            lemma_feed_infix(yard, *left);
            lemma_pending_shape(*left);
            lemma_feed_all_concat(yard, left.infix(), seq![token]);
            lemma_feed_one(after_left, token);
            let base = Yard { stack: yard.stack, queue: yard.queue + left.settled() };
            lemma_release_pending_for(base, left.pending(), op);
            let pushed = feed(after_left, token);
            assert(pushed.stack =~= yard.stack.push(token));
            assert(pushed.queue =~= yard.queue + left.postfix()) by {
                assert(yard.queue + left.settled() + left.pending().reverse() =~= yard.queue + (
                left.settled() + left.pending().reverse()));
            }
            lemma_feed_all_concat(yard, left.infix() + seq![token], right.infix());
            lemma_feed_infix(pushed, *right);
            assert(pushed.stack + right.pending() =~= yard.stack + e.pending());
            assert(pushed.queue + right.settled() =~= yard.queue + e.settled());
        },
        Expr::Group(inner) => {
            let open = Token::Bracket('(');
            let close = Token::Bracket(')');
            lemma_feed_one(yard, open);
            let opened = feed(yard, open);
            lemma_feed_all_concat(yard, seq![open], inner.infix());
            lemma_feed_infix(opened, *inner);
            lemma_pending_shape(*inner);
            let filled = feed_all(opened, inner.infix());
            lemma_feed_all_concat(yard, seq![open] + inner.infix(), seq![close]);
            lemma_feed_one(filled, close);
            lemma_release_pending_group(
                Yard { stack: opened.stack, queue: opened.queue + inner.settled() },
                inner.pending(),
            );
            let released = release_group(filled);
            assert(discard_top(released).stack =~= yard.stack);
            assert(yard.stack + e.pending() =~= yard.stack);
            assert(released.queue =~= yard.queue + e.settled()) by {
                assert(yard.queue + inner.settled() + inner.pending().reverse() =~= yard.queue + (
                inner.settled() + inner.pending().reverse()));
            }
        },
    }
}

/// The converter turns the infix order of an expression into its postfix
/// order.
pub proof fn lemma_postfix_of_infix(e: Expr)
    requires
        e.plain(),
    ensures
        postfix_of(e.infix()) == e.postfix(),
{
    let empty = Yard { stack: Seq::empty(), queue: Seq::empty() };
    lemma_feed_infix(empty, e);
    lemma_pending_shape(e);
    assert(empty.stack + e.pending() =~= e.pending());
    assert(empty.queue + e.settled() =~= e.settled());
}

/// The tokens and the depth of a text of one character.
proof fn lemma_one_char(c: char)
    ensures
        tokens_of(seq![c]) == (match token_of(c) {
            Some(t) => seq![t],
            None => Seq::<Token>::empty(),
        }),
        depth(seq![c]) == (if c == '(' {
            1int
        } else if c == ')' {
            -1int
        } else {
            0int
        }),
{
    assert(tokens_of(seq![c].drop_last()) =~= Seq::<Token>::empty());
    assert(depth(seq![c].drop_last()) == 0);
}

/// The text of an expression holds only characters that the tokenizer
/// takes, stands for the infix order, and is balanced.
proof fn lemma_text_shape(e: Expr)
    requires
        e.single_digits(),
    ensures
        legible(e.text()),
        tokens_of(e.text()) == e.infix(),
        depth(e.text()) == 0,
        never_negative(e.text(), e.text().len() as int),
    decreases e,
{
    let text = e.text();
    match e {
        Expr::Digit(n) => {
            lemma_one_char(digit_char(n));
            assert forall|k: int| 0 <= k <= text.len() implies #[trigger] depth(text.take(k))
                >= 0 by {
                if k > 0 {
                    assert(text.take(k) =~= text);
                }
            }
        },
        Expr::Binary(op, left, right) => {
            let c = operator_char(op);
            let head = left.text() + seq![c];
            lemma_text_shape(*left);
            lemma_text_shape(*right);
            lemma_one_char(c);
            lemma_text_concat(left.text(), seq![c]);
            lemma_text_concat(head, right.text());
            assert forall|k: int| 0 <= k <= text.len() implies #[trigger] depth(text.take(k))
                >= 0 by {
                if k <= left.text().len() {
                    assert(text.take(k) =~= left.text().take(k));
                } else {
                    let j = k - head.len();
                    assert(text.take(k) =~= head + right.text().take(j));
                    lemma_text_concat(head, right.text().take(j));
                }
            }
        },
        Expr::Group(inner) => {
            let head = seq!['('] + inner.text();
            lemma_text_shape(*inner);
            lemma_one_char('(');
            lemma_one_char(')');
            lemma_text_concat(seq!['('], inner.text());
            lemma_text_concat(head, seq![')']);
            assert forall|k: int| 0 <= k <= text.len() implies #[trigger] depth(text.take(k))
                >= 0 by {
                if 0 < k <= head.len() {
                    let j = k - 1;
                    assert(text.take(k) =~= seq!['('] + inner.text().take(j));
                    lemma_text_concat(seq!['('], inner.text().take(j));
                } else if k > 0 {
                    assert(text.take(k) =~= text);
                }
            }
        },
    }
}

/// The tokenizer turns the text of an expression into its infix order.
pub proof fn lemma_scan_text(e: Expr)
    requires
        e.single_digits(),
    ensures
        scan(e.text()) == Ok::<Seq<Token>, Error>(e.infix()),
{
    lemma_text_shape(e);
    assert(e.text().take(e.text().len() as int) =~= e.text());
}

/// The outcome of an evaluation that meets the postfix order of an
/// expression: the expression's value is put on the stack, or the
/// evaluation ends as the expression does.
pub open spec fn met(stack: Seq<u32>, meaning: Meaning) -> Outcome {
    match meaning {
        Meaning::Value(v) => Outcome::Values(stack.push(v)),
        Meaning::DividedByZero => Outcome::DividedByZero,
        Meaning::OutOfRange => Outcome::OutOfRange,
    }
}

/// Evaluating the postfix order of an expression, whatever values wait,
/// gives what the expression comes to.
pub proof fn lemma_resume_postfix(stack: Seq<u32>, e: Expr)
    ensures
        resume(Outcome::Values(stack), e.postfix()) == met(stack, e.meaning()),
    decreases e,
{
    let start = Outcome::Values(stack);
    match e {
        Expr::Digit(n) => {
            assert(resume(start, e.postfix().drop_last()) == start);
        },
        Expr::Binary(op, left, right) => {
            let token = Token::Op(op);
            lemma_resume_postfix(stack, *left);
            lemma_resume_concat(start, left.postfix() + right.postfix(), seq![token]);
            lemma_resume_concat(start, left.postfix(), right.postfix());
            let after_left = resume(start, left.postfix());
            let after_right = resume(after_left, right.postfix());
            assert(resume(after_right, seq![token].drop_last()) == after_right);
            match left.meaning() {
                Meaning::Value(a) => {
                    lemma_resume_postfix(stack.push(a), *right);
                    match right.meaning() {
                        Meaning::Value(b) => {
                            let both = stack.push(a).push(b);
                            assert(both.take(both.len() - 2) =~= stack);
                        },
                        _ => {},
                    }
                },
                _ => {
                    lemma_ended_stays(after_left, right.postfix());
                },
            }
        },
        Expr::Group(inner) => {
            lemma_resume_postfix(stack, *inner);
        },
    }
}

/// The converter and the evaluator, one after the other, give an
/// expression written in infix order what it comes to: its value, the error
/// of a division by zero, or no evaluation where a result is out of range.
pub proof fn lemma_infix_evaluates(e: Expr)
    requires
        e.plain(),
    ensures
        evaluable(postfix_of(e.infix())) <==> !(e.meaning() is OutOfRange),
        value_of(postfix_of(e.infix())) == (match e.meaning() {
            Meaning::Value(v) => Some(Ok::<u32, Error>(v)),
            Meaning::DividedByZero => Some(Err::<u32, Error>(Error::InvalidDivisionByZero)),
            Meaning::OutOfRange => None::<Result<u32, Error>>,
        }),
{
    lemma_postfix_of_infix(e);
    lemma_resume_postfix(Seq::empty(), e);
}

} // verus!

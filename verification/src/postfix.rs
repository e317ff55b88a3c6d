//! From infix order to postfix order.

use vstd::multiset::Multiset;
use vstd::prelude::*;
use crate::token::{free_of_brackets, nesting, never_closes_early, well_nested, Operator, Token};
use crate::Calculator;

verus! {

/// The two halves of a conversion under way: the operators and parentheses
/// that wait, the last of `stack` on top, and the output so far.
pub struct Yard {
    pub stack: Seq<Token>,
    pub queue: Seq<Token>,
}

/// Whether `top`, waiting on the stack, leaves before `op` is put there: it
/// is an operator that binds at least as tightly as `op`.
pub open spec fn gives_way(top: Token, op: Operator) -> bool {
    match top {
        Token::Op(waiting) => waiting.level() >= op.level(),
        _ => false,
    }
}

/// Moves tokens from the top of the stack to the output for as long as the
/// top gives way to `op`.
pub open spec fn release_for(yard: Yard, op: Operator) -> Yard
    decreases yard.stack.len(),
{
    if yard.stack.len() > 0 && gives_way(yard.stack.last(), op) {
        release_for(
            Yard { stack: yard.stack.drop_last(), queue: yard.queue.push(yard.stack.last()) },
            op,
        )
    } else {
        yard
    }
}

/// Moves tokens from the top of the stack to the output down to the nearest
/// `'('`, which stays on the stack, or down to the bottom.
pub open spec fn release_group(yard: Yard) -> Yard
    decreases yard.stack.len(),
{
    if yard.stack.len() > 0 && yard.stack.last() != Token::Bracket('(') {
        release_group(
            Yard { stack: yard.stack.drop_last(), queue: yard.queue.push(yard.stack.last()) },
        )
    } else {
        yard
    }
}

/// The yard without the top of its stack; an empty stack stays empty.
pub open spec fn discard_top(yard: Yard) -> Yard {
    if yard.stack.len() > 0 {
        Yard { stack: yard.stack.drop_last(), queue: yard.queue }
    } else {
        yard
    }
}

/// The yard after one more token of the input.
pub open spec fn feed(yard: Yard, token: Token) -> Yard {
    match token {
        Token::Number(_) => Yard { stack: yard.stack, queue: yard.queue.push(token) },
        Token::Op(op) => {
            let released = release_for(yard, op);
            Yard { stack: released.stack.push(token), queue: released.queue }
        },
        Token::Bracket(c) => if c == '(' {
            Yard { stack: yard.stack.push(token), queue: yard.queue }
        } else if c == ')' {
            discard_top(release_group(yard))
        } else {
            yard
        },
    }
}

/// The yard after the tokens of `tokens`, fed to `yard` in their order.
pub open spec fn feed_all(yard: Yard, tokens: Seq<Token>) -> Yard
    decreases tokens.len(),
{
    if tokens.len() == 0 {
        yard
    } else {
        feed(feed_all(yard, tokens.drop_last()), tokens.last())
    }
}

/// The yard after the tokens of `tokens`, fed in their order to an empty
/// yard.
pub open spec fn shunt(tokens: Seq<Token>) -> Yard {
    feed_all(Yard { stack: Seq::empty(), queue: Seq::empty() }, tokens)
}

/// The postfix order of `tokens`: the output of the yard after all of them,
/// followed by what still waits, from the top of the stack down.
pub open spec fn postfix_of(tokens: Seq<Token>) -> Seq<Token> {
    shunt(tokens).queue + shunt(tokens).stack.reverse()
}

/// Every token that the yard holds, waiting or put out.
pub open spec fn content(yard: Yard) -> Multiset<Token> {
    yard.queue.to_multiset().add(yard.stack.to_multiset())
}

/// Whether the stack holds nothing but operators and `'('`.
pub open spec fn holds_waiting(stack: Seq<Token>) -> bool {
    forall|i: int|
        0 <= i < stack.len() ==> (#[trigger] stack[i]) is Op || stack[i] == Token::Bracket('(')
}

/// How many `'('` wait on the stack.
pub open spec fn open_groups(stack: Seq<Token>) -> nat {
    stack.to_multiset().count(Token::Bracket('('))
}

/// Feeding `first + second` is feeding `first` and then `second`.
pub proof fn lemma_feed_all_concat(yard: Yard, first: Seq<Token>, second: Seq<Token>)
    ensures
        feed_all(yard, first + second) == feed_all(feed_all(yard, first), second),
    decreases second.len(),
{
    if second.len() == 0 {
    } else {
        assert((first + second).drop_last() =~= first + second.drop_last());
        lemma_feed_all_concat(yard, first, second.drop_last());
    }
}

/// Moving the top of the stack to the output keeps what the yard holds.
proof fn lemma_move_keeps_content(yard: Yard)
    requires
        yard.stack.len() > 0,
    ensures
        content(Yard { stack: yard.stack.drop_last(), queue: yard.queue.push(yard.stack.last()) })
            == content(yard),
        open_groups(yard.stack) == open_groups(yard.stack.drop_last()) + (if yard.stack.last()
            == Token::Bracket('(') {
            1nat
        } else {
            0nat
        }),
{
    assert(yard.stack =~= yard.stack.drop_last().push(yard.stack.last()));
    vstd::seq_lib::to_multiset_build(yard.stack.drop_last(), yard.stack.last());
    vstd::seq_lib::to_multiset_build(yard.queue, yard.stack.last());
    assert(yard.queue.push(yard.stack.last()).to_multiset().add(
        yard.stack.drop_last().to_multiset(),
    ) =~= content(yard));
}

/// Making room for an operator moves operators only, and loses nothing.
pub proof fn lemma_release_for(yard: Yard, op: Operator)
    ensures
        content(release_for(yard, op)) == content(yard),
        open_groups(release_for(yard, op).stack) == open_groups(yard.stack),
        holds_waiting(yard.stack) ==> holds_waiting(release_for(yard, op).stack),
        free_of_brackets(yard.queue) ==> free_of_brackets(release_for(yard, op).queue),
    decreases yard.stack.len(),
{
    if yard.stack.len() > 0 && gives_way(yard.stack.last(), op) {
        let next = Yard {
            stack: yard.stack.drop_last(),
            queue: yard.queue.push(yard.stack.last()),
        };
        lemma_move_keeps_content(yard);
        lemma_release_for(next, op);
    }
}

/// Closing a group moves operators only, loses nothing, and stops below a
/// `'('` or at the bottom.
pub proof fn lemma_release_group(yard: Yard)
    requires
        holds_waiting(yard.stack),
    ensures
        content(release_group(yard)) == content(yard),
        open_groups(release_group(yard).stack) == open_groups(yard.stack),
        holds_waiting(release_group(yard).stack),
        free_of_brackets(yard.queue) ==> free_of_brackets(release_group(yard).queue),
        release_group(yard).stack.len() > 0 ==> release_group(yard).stack.last() == Token::Bracket(
            '(',
        ),
    decreases yard.stack.len(),
{
    if yard.stack.len() > 0 && yard.stack.last() != Token::Bracket('(') {
        let next = Yard {
            stack: yard.stack.drop_last(),
            queue: yard.queue.push(yard.stack.last()),
        };
        lemma_move_keeps_content(yard);
        lemma_release_group(next);
    }
}

/// What holds of the yard after any tokens: the output is free of
/// parentheses, the stack holds operators and `'('` only, every token of the
/// input that is no parenthesis is in the yard as often as in the input, and
/// as long as no `')'` came early, as many `'('` wait as are open.
pub proof fn lemma_shunt_keeps(tokens: Seq<Token>)
    ensures
        free_of_brackets(shunt(tokens).queue),
        holds_waiting(shunt(tokens).stack),
        forall|x: Token|
            !(x is Bracket) ==> content(shunt(tokens)).count(x) == tokens.to_multiset().count(x),
        never_closes_early(tokens) ==> open_groups(shunt(tokens).stack) == nesting(tokens),
    decreases tokens.len(),
{
    if tokens.len() == 0 {
        assert(tokens.to_multiset() =~= Multiset::<Token>::empty()) by {
            tokens.to_multiset_ensures();
        }
        assert(shunt(tokens).stack.to_multiset() =~= Multiset::<Token>::empty()) by {
            shunt(tokens).stack.to_multiset_ensures();
        }
        assert(shunt(tokens).queue.to_multiset() =~= Multiset::<Token>::empty()) by {
            shunt(tokens).queue.to_multiset_ensures();
        }
    } else {
        let front = tokens.drop_last();
        let token = tokens.last();
        let yard = shunt(front);
        lemma_shunt_keeps(front);
        assert(tokens =~= front.push(token));
        vstd::seq_lib::to_multiset_build(front, token);
        if never_closes_early(tokens) {
            assert forall|k: int| 0 <= k <= front.len() implies #[trigger] nesting(front.take(k))
                >= 0 by {
                assert(front.take(k) =~= tokens.take(k));
            }
            assert(tokens.take(tokens.len() as int) =~= tokens);
        }
        match token {
            Token::Number(_) => {
                vstd::seq_lib::to_multiset_build(yard.queue, token);
            },
            Token::Op(op) => {
                let released = release_for(yard, op);
                lemma_release_for(yard, op);
                vstd::seq_lib::to_multiset_build(released.stack, token);
            },
            Token::Bracket(c) => {
                if c == '(' {
                    vstd::seq_lib::to_multiset_build(yard.stack, token);
                } else if c == ')' {
                    let released = release_group(yard);
                    lemma_release_group(yard);
                    if released.stack.len() > 0 {
                        lemma_move_keeps_content(released);
                        vstd::seq_lib::to_multiset_build(released.queue, released.stack.last());
                    } else {
                        assert(released.stack.to_multiset() =~= Multiset::<Token>::empty()) by {
                            released.stack.to_multiset_ensures();
                        }
                    }
                }
            },
        }
    }
}

/// The postfix order holds every number and operator of the input as often
/// as the input does, and no parenthesis if those of the input are well
/// nested.
pub proof fn lemma_postfix_keeps_symbols(tokens: Seq<Token>)
    ensures
        forall|x: Token|
            !(x is Bracket) ==> postfix_of(tokens).to_multiset().count(x)
                == tokens.to_multiset().count(x),
        well_nested(tokens) ==> free_of_brackets(postfix_of(tokens)),
{
    let yard = shunt(tokens);
    lemma_shunt_keeps(tokens);
    yard.stack.lemma_reverse_to_multiset();
    vstd::seq_lib::lemma_multiset_commutative(yard.queue, yard.stack.reverse());
    if well_nested(tokens) {
        assert forall|i: int| 0 <= i < yard.stack.len() implies (#[trigger] yard.stack[i]) is Op by {
            if yard.stack[i] == Token::Bracket('(') {
                yard.stack.to_multiset_ensures();
            }
        }
    }
}

impl Calculator {
    /// Reorders `tokens` from infix to postfix. Operators of equal binding
    /// strength keep their order, so they apply from left to right.
    pub fn expression(tokens: Vec<Token>) -> (queue: Vec<Token>)
        ensures
            queue@ == postfix_of(tokens@),
            forall|x: Token|
                !(x is Bracket) ==> queue@.to_multiset().count(x) == tokens@.to_multiset().count(x),
            well_nested(tokens@) ==> free_of_brackets(queue@),
    {
        let mut queue: Vec<Token> = Vec::new();
        let mut stack: Vec<Token> = Vec::new();
        let mut i: usize = 0;
        assert(tokens@.take(0) =~= Seq::<Token>::empty());
        while i < tokens.len()
            invariant
                i <= tokens.len(),
                shunt(tokens@.take(i as int)) == (Yard { stack: stack@, queue: queue@ }),
            decreases tokens.len() - i,
        {
            let token = tokens[i];
            let ghost before = Yard { stack: stack@, queue: queue@ };
            assert(tokens@.take(i + 1).drop_last() =~= tokens@.take(i as int));
            match token {
                Token::Number(_) => {
                    queue.push(token);
                },
                Token::Op(op) => {
                    while stack.len() > 0 && Self::outranks(stack[stack.len() - 1], op)
                        invariant
                            release_for(Yard { stack: stack@, queue: queue@ }, op) == release_for(
                                before,
                                op,
                            ),
                        decreases stack.len(),
                    {
                        let top = stack.pop().unwrap();
                        queue.push(top);
                    }
                    stack.push(token);
                },
                Token::Bracket(c) => {
                    if c == '(' {
                        stack.push(token);
                    } else if c == ')' {
                        while stack.len() > 0 && !Self::opens(stack[stack.len() - 1])
                            invariant
                                release_group(Yard { stack: stack@, queue: queue@ })
                                    == release_group(before),
                            decreases stack.len(),
                        {
                            let top = stack.pop().unwrap();
                            queue.push(top);
                        }
                        stack.pop();
                    }
                },
            }
            i += 1;
        }
        assert(tokens@.take(tokens.len() as int) =~= tokens@);
        let ghost waiting = stack@;
        let ghost ahead = queue@;
        while stack.len() > 0
            invariant
                stack@.len() <= waiting.len(),
                stack@ == waiting.take(stack@.len() as int),
                queue@ == ahead + waiting.skip(stack@.len() as int).reverse(),
            decreases stack.len(),
        {
            let top = stack.pop().unwrap();
            queue.push(top);
            assert(queue@ =~= ahead + waiting.skip(stack@.len() as int).reverse());
            assert(stack@ =~= waiting.take(stack@.len() as int));
        }
        proof {
            assert(waiting.skip(0) =~= waiting);
            lemma_postfix_keeps_symbols(tokens@);
        }
        queue
    }

    /// Whether `top` leaves the stack before `op` is put there.
    fn outranks(top: Token, op: Operator) -> (b: bool)
        ensures
            b == gives_way(top, op),
    {
        match top {
            Token::Op(waiting) => waiting.precedence() >= op.precedence(),
            _ => false,
        }
    }

    /// Whether `token` is `'('`.
    fn opens(token: Token) -> (b: bool)
        ensures
            b == (token == Token::Bracket('(')),
    {
        match token {
            Token::Bracket(c) => c == '(',
            _ => false,
        }
    }
}

} // verus!

//! From text to tokens.

use vstd::prelude::*;
use crate::Calculator;
use crate::token::{nesting, never_closes_early, well_nested, Error, Operator, Token};

verus! {

/// The token that a character stands for, if it stands for one: a digit
/// for the number that is its value, an operator sign for its operator, a
/// parenthesis for itself.
pub open spec fn token_of(c: char) -> Option<Token> {
    if '0' <= c <= '9' {
        Some(Token::Number((c as u32 - '0' as u32) as u32))
    } else if c == '+' {
        Some(Token::Op(Operator::Add))
    } else if c == '-' {
        Some(Token::Op(Operator::Subtract))
    } else if c == '*' {
        Some(Token::Op(Operator::Multiply))
    } else if c == '/' {
        Some(Token::Op(Operator::Divide))
    } else if c == '(' || c == ')' {
        Some(Token::Bracket(c))
    } else {
        None
    }
}

/// The token that `c` stands for, if it stands for one.
fn classify(c: char) -> (t: Option<Token>)
    ensures
        t == token_of(c),
{
    if '0' <= c && c <= '9' {
        Some(Token::Number(c as u32 - '0' as u32))
    } else if c == '+' {
        Some(Token::Op(Operator::Add))
    } else if c == '-' {
        Some(Token::Op(Operator::Subtract))
    } else if c == '*' {
        Some(Token::Op(Operator::Multiply))
    } else if c == '/' {
        Some(Token::Op(Operator::Divide))
    } else if c == '(' || c == ')' {
        Some(Token::Bracket(c))
    } else {
        None
    }
}

/// Whether the tokenizer takes the character: it stands for a token, or it
/// is a newline, which is passed over.
pub open spec fn accepted(c: char) -> bool {
    token_of(c) is Some || c == '\n'
}

/// Whether every character of `s` is taken.
pub open spec fn legible(s: Seq<char>) -> bool {
    forall|i: int| 0 <= i < s.len() ==> accepted(#[trigger] s[i])
}

/// The tokens that the characters of `s` stand for, in their order.
pub open spec fn tokens_of(s: Seq<char>) -> Seq<Token>
    decreases s.len(),
{
    if s.len() == 0 {
        Seq::empty()
    } else {
        match token_of(s.last()) {
            Some(t) => tokens_of(s.drop_last()).push(t),
            None => tokens_of(s.drop_last()),
        }
    }
}

/// The characters of `s` that are no newline.
pub open spec fn glyphs(s: Seq<char>) -> Seq<char> {
    s.filter(|c: char| c != '\n')
}

/// The number of `'('` in `s` minus the number of `')'`.
pub open spec fn depth(s: Seq<char>) -> int
    decreases s.len(),
{
    if s.len() == 0 {
        0
    } else if s.last() == '(' {
        depth(s.drop_last()) + 1
    } else if s.last() == ')' {
        depth(s.drop_last()) - 1
    } else {
        depth(s.drop_last())
    }
}

/// Whether no prefix of `s` of at most `n` characters closes more
/// parentheses than it has opened.
pub open spec fn never_negative(s: Seq<char>, n: int) -> bool {
    forall|k: int| 0 <= k <= n && k <= s.len() ==> #[trigger] depth(s.take(k)) >= 0
}

/// Whether every `')'` of `s` closes an earlier `'('` and every `'('` is
/// closed.
pub open spec fn balanced(s: Seq<char>) -> bool {
    never_negative(s, s.len() as int) && depth(s) == 0
}

/// Whether `s[i]` is a character that the tokenizer does not take, met
/// before any `')'` that closes nothing.
pub open spec fn stray_char_at(s: Seq<char>, i: int) -> bool {
    0 <= i < s.len() && !accepted(s[i]) && never_negative(s, i)
}

/// What tokenizing `s` gives. A character that is not taken is reported
/// unless a `')'` that closes nothing comes first; text in which every
/// character is taken gives its tokens if its parentheses are balanced.
pub open spec fn scan(s: Seq<char>) -> Result<Seq<Token>, Error> {
    if exists|i: int| stray_char_at(s, i) {
        Err(Error::InvalidToken)
    } else if legible(s) && balanced(s) {
        Ok(tokens_of(s))
    } else {
        Err(Error::InvalidParenthesis)
    }
}

/// Whether every number among `tokens` is a single decimal digit and every
/// bracket a parenthesis.
pub open spec fn proper(tokens: Seq<Token>) -> bool {
    forall|i: int|
        0 <= i < tokens.len() ==> match #[trigger] tokens[i] {
            Token::Number(n) => n <= 9,
            Token::Op(_) => true,
            Token::Bracket(c) => c == '(' || c == ')',
        }
}

/// Text in which every character is taken has one token for each character
/// that is no newline.
pub proof fn lemma_token_count(s: Seq<char>)
    requires
        legible(s),
    ensures
        tokens_of(s).len() == glyphs(s).len(),
    decreases s.len(),
{
    reveal(Seq::filter);
    if s.len() > 0 {
        lemma_token_count(s.drop_last());
    }
}

/// The tokens of `first + second` are those of `first` and then those of
/// `second`, and the depths add up.
pub proof fn lemma_text_concat(first: Seq<char>, second: Seq<char>)
    ensures
        tokens_of(first + second) == tokens_of(first) + tokens_of(second),
        depth(first + second) == depth(first) + depth(second),
    decreases second.len(),
{
    if second.len() > 0 {
        assert((first + second).drop_last() =~= first + second.drop_last());
        lemma_text_concat(first, second.drop_last());
    } else {
        assert(first + second =~= first);
        assert(tokens_of(first) + tokens_of(second) =~= tokens_of(first));
    }
}

/// The tokens of a text nest as deep as its characters do.
pub proof fn lemma_nesting_is_depth(s: Seq<char>)
    ensures
        nesting(tokens_of(s)) == depth(s),
    decreases s.len(),
{
    if s.len() > 0 {
        lemma_nesting_is_depth(s.drop_last());
        let front = tokens_of(s.drop_last());
        match token_of(s.last()) {
            Some(t) => {
                assert(front.push(t).drop_last() =~= front);
            },
            None => {},
        }
    }
}

/// The tokens of a text are single digits, operators and parentheses, and
/// no `')'` among them comes early unless one does in the text.
pub proof fn lemma_tokens_of_shape(s: Seq<char>)
    ensures
        proper(tokens_of(s)),
        never_negative(s, s.len() as int) ==> never_closes_early(tokens_of(s)),
    decreases s.len(),
{
    if s.len() > 0 {
        let front = tokens_of(s.drop_last());
        lemma_tokens_of_shape(s.drop_last());
        if never_negative(s, s.len() as int) {
            assert forall|k: int| 0 <= k <= s.len() - 1 implies #[trigger] depth(
                s.drop_last().take(k),
            ) >= 0 by {
                assert(s.drop_last().take(k) =~= s.take(k));
            }
            assert forall|k: int| 0 <= k <= tokens_of(s).len() implies #[trigger] nesting(
                tokens_of(s).take(k),
            ) >= 0 by {
                if k <= front.len() {
                    assert(tokens_of(s).take(k) =~= front.take(k));
                } else {
                    assert(tokens_of(s).take(k) =~= tokens_of(s));
                    assert(s.take(s.len() as int) =~= s);
                    lemma_nesting_is_depth(s);
                }
            }
        }
    } else {
        assert forall|k: int| 0 <= k <= tokens_of(s).len() implies #[trigger] nesting(
            tokens_of(s).take(k),
        ) >= 0 by {}
    }
}

impl Calculator {
    /// Tokenizes `expr`: one token for each digit, operator and parenthesis,
    /// in the order of the text, with newlines passed over.
    pub fn parse(expr: &str) -> (r: Result<Vec<Token>, Error>)
        ensures
            match r {
                Ok(tokens) => scan(expr@) == Ok::<Seq<Token>, Error>(tokens@),
                Err(e) => scan(expr@) == Err::<Seq<Token>, Error>(e),
            },
            r matches Ok(tokens) ==> proper(tokens@) && well_nested(tokens@),
            legible(expr@) && balanced(expr@) ==> r is Ok && r->Ok_0@.len() == glyphs(expr@).len(),
            (exists|i: int| stray_char_at(expr@, i)) ==> r == Err::<Vec<Token>, Error>(
                Error::InvalidToken,
            ),
            !balanced(expr@) && !(exists|i: int| stray_char_at(expr@, i)) ==> r == Err::<
                Vec<Token>,
                Error,
            >(Error::InvalidParenthesis),
    {
        let ghost s = expr@;
        let mut tokens: Vec<Token> = Vec::new();
        let mut parens: Vec<char> = Vec::new();
        assert(s.take(0) =~= Seq::<char>::empty());
        for c in it: expr.chars()
            invariant
                it.seq() == s,
                s == expr@,
                forall|j: int| 0 <= j < it.index() ==> accepted(#[trigger] s[j]),
                never_negative(s, it.index()),
                tokens@ == tokens_of(s.take(it.index())),
                parens@.len() == depth(s.take(it.index())),
        {
            let ghost i = it.index();
            assert(s.take(i + 1).drop_last() =~= s.take(i));
            match classify(c) {
                Some(token) => {
                    tokens.push(token);
                    if c == '(' {
                        parens.push(c);
                    } else if c == ')' {
                        if parens.pop().is_none() {
                            assert(depth(s.take(i + 1)) < 0);
                            assert forall|k: int| !stray_char_at(s, k) by {
                                if i < k < s.len() {
                                    assert(depth(s.take(i + 1)) < 0);
                                }
                            }
                            return Err(Error::InvalidParenthesis);
                        }
                    }
                },
                None => {
                    if c != '\n' {
                        assert(stray_char_at(s, i));
                        return Err(Error::InvalidToken);
                    }
                },
            }
        }
        assert(s.take(s.len() as int) =~= s);
        if parens.len() != 0 {
            return Err(Error::InvalidParenthesis);
        }
        proof {
            lemma_token_count(s);
            lemma_tokens_of_shape(s);
            lemma_nesting_is_depth(s);
        }
        Ok(tokens)
    }
}

} // verus!

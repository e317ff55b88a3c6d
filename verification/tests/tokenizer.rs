use calculator::{Calculator, Error, Operator, Token};

#[test]
fn digits_operators_and_brackets_become_tokens() {
    let tokens = Calculator::parse("(1+2)*3-4/5").unwrap();
    assert_eq!(
        tokens,
        vec![
            Token::Bracket('('),
            Token::Number(1),
            Token::Op(Operator::Add),
            Token::Number(2),
            Token::Bracket(')'),
            Token::Op(Operator::Multiply),
            Token::Number(3),
            Token::Op(Operator::Subtract),
            Token::Number(4),
            Token::Op(Operator::Divide),
            Token::Number(5),
        ]
    );
}

#[test]
fn every_digit_has_its_value() {
    let tokens = Calculator::parse("0123456789").unwrap();
    let expected: Vec<Token> = (0..10).map(Token::Number).collect();
    assert_eq!(tokens, expected);
}

#[test]
fn newlines_are_passed_over() {
    let tokens = Calculator::parse("\n(1+\n2)\n*3\n").unwrap();
    assert_eq!(tokens.len(), 7);
    assert_eq!(tokens, Calculator::parse("(1+2)*3").unwrap());
}

#[test]
fn token_count_is_the_count_of_other_characters() {
    let text = "((1))\n+\n2*(3-4)/5\n";
    let expected = text.chars().filter(|c| *c != '\n').count();
    assert_eq!(Calculator::parse(text).unwrap().len(), expected);
    assert_eq!(expected, 15);
}

#[test]
fn empty_text_has_no_tokens() {
    assert_eq!(Calculator::parse("").unwrap(), vec![]);
    assert_eq!(Calculator::parse("\n\n").unwrap(), vec![]);
}

#[test]
fn consecutive_digits_stay_apart() {
    assert_eq!(
        Calculator::parse("12").unwrap(),
        vec![Token::Number(1), Token::Number(2)]
    );
}

#[test]
fn a_space_is_not_taken() {
    assert_eq!(Calculator::parse("1 + 2"), Err(Error::InvalidToken));
}

#[test]
fn other_characters_are_not_taken() {
    for text in ["a", "1+x", "2^3", "1.5", "\t1", "1\r\n", "٣", "1+2="] {
        assert_eq!(Calculator::parse(text), Err(Error::InvalidToken), "{:?}", text);
    }
}

#[test]
fn unbalanced_parentheses_are_reported() {
    for text in [")(", "(1", "1)", "(", ")", "((1)", "(1))", "())(", "(1+2)*(3"] {
        assert_eq!(
            Calculator::parse(text),
            Err(Error::InvalidParenthesis),
            "{:?}",
            text
        );
    }
}

#[test]
fn the_first_fault_decides() {
    assert_eq!(Calculator::parse(")a"), Err(Error::InvalidParenthesis));
    assert_eq!(Calculator::parse("a)"), Err(Error::InvalidToken));
    assert_eq!(Calculator::parse("(a"), Err(Error::InvalidToken));
    assert_eq!(Calculator::parse("(1)) x"), Err(Error::InvalidParenthesis));
    assert_eq!(Calculator::parse("(1) x)"), Err(Error::InvalidToken));
}

#[test]
fn grammar_is_not_checked() {
    assert_eq!(
        Calculator::parse("+*").unwrap(),
        vec![Token::Op(Operator::Add), Token::Op(Operator::Multiply)]
    );
    assert_eq!(
        Calculator::parse("()").unwrap(),
        vec![Token::Bracket('('), Token::Bracket(')')]
    );
}

#[test]
fn operators_are_ordered_as_declared() {
    assert!(Operator::Add < Operator::Subtract);
    assert!(Operator::Subtract < Operator::Multiply);
    assert!(Operator::Multiply < Operator::Divide);
}

#[test]
fn precedence_has_two_levels() {
    assert_eq!(Operator::Add.precedence(), 1);
    assert_eq!(Operator::Subtract.precedence(), 1);
    assert_eq!(Operator::Multiply.precedence(), 2);
    assert_eq!(Operator::Divide.precedence(), 2);
}

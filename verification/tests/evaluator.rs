use calculator::{Calculator, Error, Operator, Token};

fn num(n: u32) -> Token {
    Token::Number(n)
}

const ADD: Token = Token::Op(Operator::Add);
const SUB: Token = Token::Op(Operator::Subtract);
const MUL: Token = Token::Op(Operator::Multiply);
const DIV: Token = Token::Op(Operator::Divide);

fn eval(tokens: Vec<Token>) -> Option<Result<u32, Error>> {
    assert!(Calculator::can_evaluate(&tokens));
    Calculator::evaluate(tokens)
}

#[test]
fn each_operator_takes_left_then_right() {
    assert_eq!(eval(vec![num(8), num(2), ADD]), Some(Ok(10)));
    assert_eq!(eval(vec![num(8), num(2), SUB]), Some(Ok(6)));
    assert_eq!(eval(vec![num(8), num(2), MUL]), Some(Ok(16)));
    assert_eq!(eval(vec![num(8), num(2), DIV]), Some(Ok(4)));
}

#[test]
fn division_rounds_toward_zero() {
    assert_eq!(eval(vec![num(7), num(2), DIV]), Some(Ok(3)));
    assert_eq!(eval(vec![num(1), num(9), DIV]), Some(Ok(0)));
    assert_eq!(eval(vec![num(0), num(9), DIV]), Some(Ok(0)));
}

#[test]
fn a_zero_divisor_is_an_error() {
    assert_eq!(
        eval(vec![num(5), num(0), DIV]),
        Some(Err(Error::InvalidDivisionByZero))
    );
    assert_eq!(
        eval(vec![num(0), num(0), DIV]),
        Some(Err(Error::InvalidDivisionByZero))
    );
}

#[test]
fn a_zero_divisor_ends_the_evaluation() {
    assert_eq!(
        eval(vec![num(5), num(0), DIV, num(2), num(3), SUB]),
        Some(Err(Error::InvalidDivisionByZero))
    );
    assert_eq!(
        eval(vec![num(5), num(0), DIV, ADD]),
        Some(Err(Error::InvalidDivisionByZero))
    );
}

#[test]
fn an_operator_without_operands_gives_nothing() {
    assert_eq!(eval(vec![ADD]), None);
    assert_eq!(eval(vec![num(1), ADD]), None);
    assert_eq!(eval(vec![num(1), ADD, num(2)]), None);
    assert_eq!(eval(vec![num(1), num(2), ADD, MUL]), None);
    assert_eq!(eval(vec![num(1), DIV, num(2), num(3), SUB]), None);
}

#[test]
fn leftover_values_give_nothing() {
    assert_eq!(eval(vec![num(1), num(2)]), None);
    assert_eq!(eval(vec![num(1), num(2), num(3), ADD]), None);
}

#[test]
fn brackets_are_ignored() {
    assert_eq!(
        eval(vec![Token::Bracket('('), num(2), num(3), Token::Bracket(')'), MUL]),
        Some(Ok(6))
    );
}

#[test]
fn numbers_need_not_be_digits() {
    assert_eq!(eval(vec![num(1000), num(24), ADD]), Some(Ok(1024)));
    assert_eq!(eval(vec![num(u32::MAX), num(0), ADD]), Some(Ok(u32::MAX)));
    assert_eq!(eval(vec![num(65535), num(65537), MUL]), Some(Ok(u32::MAX)));
}

#[test]
fn nothing_to_evaluate_gives_nothing() {
    assert_eq!(eval(vec![]), None);
    assert_eq!(eval(vec![Token::Bracket('('), Token::Bracket(')')]), None);
}

#[test]
fn a_negative_difference_cannot_be_evaluated() {
    assert!(!Calculator::can_evaluate(&vec![num(2), num(3), SUB]));
    assert!(!Calculator::can_evaluate(&vec![num(2), num(3), SUB, num(4), ADD]));
    assert!(Calculator::can_evaluate(&vec![num(3), num(3), SUB]));
}

#[test]
fn a_result_above_the_range_cannot_be_evaluated() {
    assert!(!Calculator::can_evaluate(&vec![num(u32::MAX), num(1), ADD]));
    assert!(!Calculator::can_evaluate(&vec![num(65536), num(65536), MUL]));
    assert!(Calculator::can_evaluate(&vec![num(u32::MAX), num(1), MUL]));
}

#[test]
fn what_is_not_reached_does_not_count() {
    assert!(Calculator::can_evaluate(&vec![num(5), num(0), DIV, num(2), num(3), SUB]));
    assert!(Calculator::can_evaluate(&vec![ADD, num(2), num(3), SUB]));
    assert!(!Calculator::can_evaluate(&vec![num(2), num(3), SUB, num(5), num(0), DIV]));
}

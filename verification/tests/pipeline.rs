use calculator::{Calculator, Error};

fn compute(text: &str) -> Option<Result<u32, Error>> {
    let tokens = Calculator::parse(text).unwrap();
    let postfix = Calculator::expression(tokens);
    assert!(Calculator::can_evaluate(&postfix));
    Calculator::evaluate(postfix)
}

fn computable(text: &str) -> bool {
    let tokens = Calculator::parse(text).unwrap();
    Calculator::can_evaluate(&Calculator::expression(tokens))
}

#[test]
fn multiplication_binds_before_addition() {
    assert_eq!(compute("2+3*4"), Some(Ok(14)));
}

#[test]
fn subtraction_applies_from_the_left() {
    assert_eq!(compute("8-3-2"), Some(Ok(3)));
}

#[test]
fn parentheses_override_precedence() {
    assert_eq!(compute("(2+3)*4"), Some(Ok(20)));
}

#[test]
fn division_truncates() {
    assert_eq!(compute("7/2"), Some(Ok(3)));
}

#[test]
fn division_by_zero_is_reported() {
    assert_eq!(compute("5/0"), Some(Err(Error::InvalidDivisionByZero)));
}

#[test]
fn single_digit_is_its_value() {
    assert_eq!(compute("7"), Some(Ok(7)));
}

#[test]
fn two_digits_are_not_merged() {
    assert_eq!(compute("12"), None);
}

#[test]
fn mixed_operators_of_equal_strength() {
    assert_eq!(compute("2+3-4"), Some(Ok(1)));
    assert_eq!(compute("8-3+2"), Some(Ok(7)));
    assert_eq!(compute("8*2/3"), Some(Ok(5)));
    assert_eq!(compute("8/2*3"), Some(Ok(12)));
    assert_eq!(compute("9/2/2"), Some(Ok(2)));
}

#[test]
fn parentheses_on_the_right() {
    assert_eq!(compute("2*(3+4)"), Some(Ok(14)));
    assert_eq!(compute("8-(3-2)"), Some(Ok(7)));
    assert_eq!(compute("9/(4/2)"), Some(Ok(4)));
    assert_eq!(compute("((1+2)*(9-4))/5"), Some(Ok(3)));
}

#[test]
fn a_line_with_its_newline() {
    assert_eq!(compute("1+2*3\n"), Some(Ok(7)));
}

#[test]
fn large_products_fit() {
    assert_eq!(compute("9*9*9*9*9*9*9*9*9*9"), Some(Ok(3486784401)));
    assert!(!computable("9*9*9*9*9*9*9*9*9*9*9"));
}

#[test]
fn a_negative_value_is_out_of_range() {
    assert!(!computable("2-3"));
    assert!(!computable("1-2+3"));
    assert_eq!(compute("1+3-2"), Some(Ok(2)));
}

#[test]
fn text_without_an_operand_has_no_value() {
    assert_eq!(compute(""), None);
    assert_eq!(compute("\n"), None);
    assert_eq!(compute("()"), None);
    assert_eq!(compute("+"), None);
    assert_eq!(compute("1+"), None);
    assert_eq!(compute("(1)(2)"), None);
}

#[test]
fn division_by_a_zero_expression() {
    assert_eq!(compute("5/(3-3)"), Some(Err(Error::InvalidDivisionByZero)));
    assert_eq!(compute("1+5/0*2"), Some(Err(Error::InvalidDivisionByZero)));
}

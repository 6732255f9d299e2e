use yaba_lang::ast::ArithmeticFault;
use yaba_lang::expr_eval;
use yaba_lang::parser::{ParseError, ParseErrorKind};
use yaba_lang::CalcError;

fn parse_failure(rest: &str, kind: ParseErrorKind) -> Result<i32, CalcError> {
    Err(CalcError::Parse(ParseError { rest: rest.to_string(), kind }))
}

#[test]
fn test_expr_eval() {
    assert_eq!(expr_eval("1+2+3+4+5").unwrap(), 1 + 2 + 3 + 4 + 5);

    assert_eq!(expr_eval("1+2*3-7").unwrap(), 1 + 2 * 3 - 7);

    assert_eq!(expr_eval("(2*24)/(5+3)").unwrap(), (2 * 24) / (5 + 3));
}

#[test]
fn sum_of_five() {
    assert_eq!(expr_eval("1+2+3+4+5"), Ok(15));
}

#[test]
fn mixed_chain_groups_to_the_right() {
    assert_eq!(expr_eval("1+2*3-7"), Ok(0));
}

#[test]
fn parenthesized_quotient() {
    assert_eq!(expr_eval("(2*24)/(5+3)"), Ok(6));
}

#[test]
fn product_and_quotient_group_to_the_right() {
    assert_eq!(expr_eval("4*2/1"), Ok(8));
    assert_eq!(expr_eval("8/4/2"), Ok(4));
    assert_eq!(expr_eval("10-4-3"), Ok(9));
}

#[test]
fn nested_parentheses() {
    assert_eq!(expr_eval("((1+2))"), Ok(3));
    assert_eq!(expr_eval("((2-5)*(3))"), Ok(-9));
}

#[test]
fn decimal_digits_read_back() {
    for n in [0i32, 7, 10, 99, 12345, 2147483647] {
        assert_eq!(expr_eval(&n.to_string()), Ok(n));
    }
}

#[test]
fn malformed_input_is_a_parse_error() {
    assert_eq!(expr_eval(""), parse_failure("", ParseErrorKind::Char('(')));
    assert_eq!(expr_eval("+1"), parse_failure("+1", ParseErrorKind::Char('(')));
    assert_eq!(expr_eval("(1+2"), parse_failure("", ParseErrorKind::Char(')')));
}

#[test]
fn too_large_literal_is_a_parse_error() {
    assert_eq!(expr_eval("2147483648"), parse_failure("2147483648", ParseErrorKind::TooLarge));
}

#[test]
fn division_by_zero_is_a_fault() {
    let fault = Err(CalcError::Arithmetic(ArithmeticFault::DivisionByZero));
    assert_eq!(expr_eval("1/0"), fault);
    assert_eq!(expr_eval("(7+1)/(2-2)"), fault);
    assert_eq!(expr_eval("0/0"), fault);
}

#[test]
fn overflow_is_a_fault() {
    assert_eq!(
        expr_eval("2147483647+1"),
        Err(CalcError::Arithmetic(ArithmeticFault::Overflow))
    );
    assert_eq!(
        expr_eval("65536*65536"),
        Err(CalcError::Arithmetic(ArithmeticFault::Overflow))
    );
}

#[test]
fn trailing_text_is_ignored() {
    assert_eq!(expr_eval("12\n"), Ok(12));
    assert_eq!(expr_eval("3*4 + 5"), Ok(12));
    assert_eq!(expr_eval("1+"), Ok(1));
}

#[test]
fn evaluating_twice_gives_the_same_result() {
    let text = "(2*24)/(5+3)";
    assert_eq!(expr_eval(text), expr_eval(text));
    assert_eq!(expr_eval("1/0"), expr_eval("1/0"));
    assert_eq!(expr_eval("(1+"), expr_eval("(1+"));
}

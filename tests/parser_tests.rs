use yaba_lang::ast::{BinOp, ConstantVal, Expr, OpKind};
use yaba_lang::parser::{
    constant_val_parser, expr_parser, factor_parser, paren_expr_parser, term_parser, ParseError,
    ParseErrorKind,
};

fn leaf(v: i32) -> Expr {
    Expr::ConstantVal(ConstantVal::new(v))
}

fn node(op: OpKind, l: Expr, r: Expr) -> Expr {
    Expr::BinOp(Box::new(BinOp::new(op, l, r)))
}

fn error(rest: &str, kind: ParseErrorKind) -> ParseError {
    ParseError { rest: rest.to_string(), kind }
}

#[test]
fn constant_val_parser_test() {
    let (_, actual) = constant_val_parser("123").unwrap();
    let expected = ConstantVal::new(123);
    assert_eq!(actual, expected);
}

#[test]
fn paren_expr_parser_test() {
    let (_, actual) = paren_expr_parser("(123)").unwrap();
    let expected = Expr::ConstantVal(ConstantVal::new(123));
    assert_eq!(actual, expected);
}

#[test]
fn factor_parser_test() {
    let (_, actual) = factor_parser("123").unwrap();
    let expected = Expr::ConstantVal(ConstantVal::new(123));
    assert_eq!(actual, expected);
}

#[test]
fn term_parser_test() {
    let (_, actual) = term_parser("4*2/1").unwrap();
    let expected = Expr::BinOp(Box::new(BinOp::new(
        OpKind::Mul,
        Expr::ConstantVal(ConstantVal::new(4)),
        Expr::BinOp(Box::new(BinOp::new(
            OpKind::Div,
            Expr::ConstantVal(ConstantVal::new(2)),
            Expr::ConstantVal(ConstantVal::new(1)),
        ))),
    )));
    assert_eq!(actual, expected);
}

#[test]
fn constant_parser_leaves_the_rest() {
    assert_eq!(constant_val_parser("0042+1"), Ok(("+1", ConstantVal::new(42))));
    assert_eq!(constant_val_parser("7"), Ok(("", ConstantVal::new(7))));
}

#[test]
fn constant_parser_needs_a_digit() {
    assert_eq!(constant_val_parser("x1"), Err(error("x1", ParseErrorKind::Digit)));
    assert_eq!(constant_val_parser(""), Err(error("", ParseErrorKind::Digit)));
    assert_eq!(constant_val_parser(" 1"), Err(error(" 1", ParseErrorKind::Digit)));
}

#[test]
fn constant_parser_largest_and_too_large() {
    assert_eq!(constant_val_parser("2147483647"), Ok(("", ConstantVal::new(i32::MAX))));
    assert_eq!(
        constant_val_parser("2147483648)"),
        Err(error("2147483648)", ParseErrorKind::TooLarge))
    );
}

#[test]
fn paren_parser_errors() {
    assert_eq!(paren_expr_parser("1"), Err(error("1", ParseErrorKind::Char('('))));
    assert_eq!(paren_expr_parser("(1+2"), Err(error("", ParseErrorKind::Char(')'))));
    assert_eq!(paren_expr_parser("(1 )"), Err(error(" )", ParseErrorKind::Char(')'))));
}

#[test]
fn factor_falls_back_to_parentheses() {
    assert_eq!(factor_parser("(5)*2"), Ok(("*2", leaf(5))));
    assert_eq!(factor_parser("+1"), Err(error("+1", ParseErrorKind::Char('('))));
}

#[test]
fn expr_groups_to_the_right() {
    let (rest, e) = expr_parser("1-2-3").unwrap();
    assert_eq!(rest, "");
    assert_eq!(e, node(OpKind::Sub, leaf(1), node(OpKind::Sub, leaf(2), leaf(3))));
}

#[test]
fn expr_binds_products_tighter() {
    let (rest, e) = expr_parser("1+2*3-7\n").unwrap();
    assert_eq!(rest, "\n");
    let product = node(OpKind::Mul, leaf(2), leaf(3));
    assert_eq!(e, node(OpKind::Add, leaf(1), node(OpKind::Sub, product, leaf(7))));
}

#[test]
fn failed_tail_is_left_unconsumed() {
    assert_eq!(expr_parser("1+"), Ok(("+", leaf(1))));
    assert_eq!(term_parser("2*)"), Ok(("*)", leaf(2))));
}

#[test]
fn too_large_literal_in_tail_is_an_error() {
    assert_eq!(
        expr_parser("1+99999999999"),
        Err(error("99999999999", ParseErrorKind::TooLarge))
    );
}

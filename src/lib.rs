use vstd::prelude::*;

pub mod ast;
pub mod parser;

use crate::ast::{ArithmeticFault, BinOp, ConstantVal, Expr, OpKind};
use crate::parser::{
    ParseError,
    ParseErrorKind,
    digit_value,
    digits_value,
    expr_parser,
    is_digit,
    mul_op_of,
    parse_constant,
    parse_expr,
    parse_factor,
    parse_term,
};

verus! {

/// Why a text did not evaluate: it did not parse, or its evaluation faulted.
#[derive(Debug, PartialEq)]
pub enum CalcError {
    Parse(ParseError),
    Arithmetic(ArithmeticFault),
}

/// The outcome of evaluating a text, as a mathematical value.
pub enum Evaluation {
    Value(int),
    ParseFailed(Seq<char>, ParseErrorKind),
    Fault(ArithmeticFault),
}

/// Parse an expression at the start of the text (whatever follows it is ignored),
/// then evaluate it; a parse error comes before any evaluation.
pub open spec fn evaluation(s: Seq<char>) -> Evaluation {
    match parse_expr(s) {
        Err((rest, kind)) => Evaluation::ParseFailed(rest, kind),
        Ok((_, e)) => match e.value() {
            Ok(v) => Evaluation::Value(v),
            Err(f) => Evaluation::Fault(f),
        },
    }
}

/// What an executable result of `expr_eval` stands for.
pub open spec fn outcome(r: Result<i32, CalcError>) -> Evaluation {
    match r {
        Ok(v) => Evaluation::Value(v as int),
        Err(CalcError::Parse(e)) => Evaluation::ParseFailed(e.rest@, e.kind),
        Err(CalcError::Arithmetic(f)) => Evaluation::Fault(f),
    }
}

/// Parses an expression at the start of `s` and evaluates it. Text after the expression
/// is ignored; a zero divisor or a value outside `i32` is reported as a fault.
pub fn expr_eval(s: &str) -> (r: Result<i32, CalcError>)
    ensures
        outcome(r) == evaluation(s@),
{
    match expr_parser(s) {
        Err(e) => Err(CalcError::Parse(e)),
        Ok((_, e)) => match e.try_eval() {
            Ok(v) => Ok(v),
            Err(f) => Err(CalcError::Arithmetic(f)),
        },
    }
}

pub open spec fn digit_char(d: nat) -> char {
    seq!['0', '1', '2', '3', '4', '5', '6', '7', '8', '9'][d as int]
}

/// The canonical decimal digits of `n`, without leading zeros.
pub open spec fn decimal(n: nat) -> Seq<char>
    decreases n,
{
    if n < 10 {
        seq![digit_char(n)]
    } else {
        decimal(n / 10).push(digit_char(n % 10))
    }
}

proof fn lemma_digit_char(d: nat)
    requires
        d < 10,
    ensures
        is_digit(digit_char(d)),
        digit_value(digit_char(d)) == d,
{
    let t = seq!['0', '1', '2', '3', '4', '5', '6', '7', '8', '9'];
    assert(t[0] == '0' && t[1] == '1' && t[2] == '2' && t[3] == '3' && t[4] == '4');
    assert(t[5] == '5' && t[6] == '6' && t[7] == '7' && t[8] == '8' && t[9] == '9');
}

proof fn lemma_decimal(n: nat)
    ensures
        decimal(n).len() >= 1,
        forall|j: int| 0 <= j < decimal(n).len() ==> is_digit(#[trigger] decimal(n)[j]),
        digits_value(decimal(n)) == n,
    decreases n,
{
    if n < 10 {
        lemma_digit_char(n);
        assert(decimal(n).drop_last() =~= Seq::<char>::empty());
        assert(digits_value(Seq::<char>::empty()) == 0);
    } else {
        let p = decimal(n / 10);
        lemma_decimal(n / 10);
        lemma_digit_char(n % 10);
        assert(decimal(n).drop_last() =~= p);
        assert(decimal(n).last() == digit_char(n % 10));
        assert(n == 10 * (n / 10) + n % 10);
        assert forall|j: int| 0 <= j < decimal(n).len() implies is_digit(#[trigger] decimal(n)[j]) by {
            if j < p.len() {
                assert(decimal(n)[j] == p[j]);
            }
        }
    }
}

/// Reading the decimal digits of a number that fits in `i32` gives back that number,
/// as a bare constant that consumes the whole text.
pub proof fn lemma_decimal_round_trip(n: nat)
    requires
        n <= i32::MAX,
    ensures
        parse_expr(decimal(n)) == Ok::<(Seq<char>, Expr), (Seq<char>, ParseErrorKind)>(
            (Seq::<char>::empty(), Expr::ConstantVal(ConstantVal(n as i32))),
        ),
        evaluation(decimal(n)) == Evaluation::Value(n as int),
{
    let s = decimal(n);
    lemma_decimal(n);
    crate::parser::lemma_leading_digits(s, s.len() as int);
    assert(s.take(s.len() as int) =~= s);
    assert(s.skip(s.len() as int) =~= Seq::<char>::empty());
    assert(parse_constant(s) == Ok::<(Seq<char>, ConstantVal), (Seq<char>, ParseErrorKind)>(
        (Seq::<char>::empty(), ConstantVal(n as i32)),
    ));
    let leaf = Expr::ConstantVal(ConstantVal(n as i32));
    let done = Ok::<(Seq<char>, Expr), (Seq<char>, ParseErrorKind)>((Seq::<char>::empty(), leaf));
    assert(parse_factor(s) == done);
    assert(parse_term(s) == done);
    assert(parse_expr(s) == done);
    assert(leaf.value() == Ok::<int, ArithmeticFault>(n as int));
}

/// Evaluating the same text twice gives the same outcome: no state is carried
/// between evaluations.
pub proof fn lemma_evaluation_repeatable(s: Seq<char>, first: Result<i32, CalcError>, second: Result<i32, CalcError>)
    requires
        outcome(first) == evaluation(s),
        outcome(second) == evaluation(s),
    ensures
        outcome(first) == outcome(second),
        first is Ok <==> second is Ok,
        first matches Ok(a) ==> second == Ok::<i32, CalcError>(a),
{
}

/// A division whose divisor evaluates to zero always faults with `DivisionByZero`,
/// whatever the dividend, provided the dividend itself evaluates.
pub proof fn lemma_division_by_zero_faults(b: BinOp)
    requires
        b.op_kind == OpKind::Div,
        b.left_expr.value() is Ok,
        b.right_expr.value() == Ok::<int, ArithmeticFault>(0),
    ensures
        b.value() == Err::<int, ArithmeticFault>(ArithmeticFault::DivisionByZero),
{
}

/// The character that writes an operator.
pub open spec fn symbol(op: OpKind) -> char {
    match op {
        OpKind::Add => '+',
        OpKind::Sub => '-',
        OpKind::Mul => '*',
        OpKind::Div => '/',
    }
}

pub open spec fn is_additive(op: OpKind) -> bool {
    op == OpKind::Add || op == OpKind::Sub
}

pub open spec fn leaf(n: nat) -> Expr {
    Expr::ConstantVal(ConstantVal(n as i32))
}

pub open spec fn node(op: OpKind, left: Expr, right: Expr) -> Expr {
    Expr::BinOp(Box::new(BinOp { op_kind: op, left_expr: left, right_expr: right }))
}

proof fn lemma_constant_then(n: nat, rest: Seq<char>)
    requires
        n <= i32::MAX,
        rest.len() == 0 || !is_digit(rest[0]),
    ensures
        parse_constant(decimal(n) + rest) == Ok::<(Seq<char>, ConstantVal), (Seq<char>, ParseErrorKind)>(
            (rest, ConstantVal(n as i32)),
        ),
        parse_factor(decimal(n) + rest) == Ok::<(Seq<char>, Expr), (Seq<char>, ParseErrorKind)>(
            (rest, leaf(n)),
        ),
{
    let d = decimal(n);
    let s = d + rest;
    lemma_decimal(n);
    assert forall|j: int| 0 <= j < d.len() implies is_digit(#[trigger] s[j]) by {
        assert(s[j] == d[j]);
    }
    if rest.len() > 0 {
        assert(s[d.len() as int] == rest[0]);
    }
    crate::parser::lemma_leading_digits(s, d.len() as int);
    assert(s.take(d.len() as int) =~= d);
    assert(s.skip(d.len() as int) =~= rest);
}

proof fn lemma_leaf_term(n: nat, rest: Seq<char>)
    requires
        n <= i32::MAX,
        rest.len() == 0 || (!is_digit(rest[0]) && mul_op_of(rest[0]) is None),
    ensures
        parse_term(decimal(n) + rest) == Ok::<(Seq<char>, Expr), (Seq<char>, ParseErrorKind)>(
            (rest, leaf(n)),
        ),
{
    lemma_constant_then(n, rest);
}

/// Within one precedence level, `a op1 b op2 c` groups to the right, as
/// `a op1 (b op2 c)`, and the whole text is consumed.
pub proof fn lemma_chain_groups_right(a: nat, op1: OpKind, b: nat, op2: OpKind, c: nat)
    requires
        a <= i32::MAX,
        b <= i32::MAX,
        c <= i32::MAX,
        is_additive(op1) == is_additive(op2),
    ensures
        parse_expr(decimal(a) + seq![symbol(op1)] + decimal(b) + seq![symbol(op2)] + decimal(c))
            == Ok::<(Seq<char>, Expr), (Seq<char>, ParseErrorKind)>(
            (Seq::<char>::empty(), node(op1, leaf(a), node(op2, leaf(b), leaf(c)))),
        ),
{
    let empty = Seq::<char>::empty();
    let r2 = seq![symbol(op2)] + decimal(c);
    let mid = decimal(b) + r2;
    let r1 = seq![symbol(op1)] + mid;
    let text = decimal(a) + r1;
    assert(decimal(a) + seq![symbol(op1)] + decimal(b) + seq![symbol(op2)] + decimal(c) =~= text);
    assert(r1.drop_first() =~= mid);
    assert(r2.drop_first() =~= decimal(c));
    assert(r1[0] == symbol(op1));
    assert(r2[0] == symbol(op2));
    assert(decimal(c) + empty =~= decimal(c));
    lemma_decimal_round_trip(c);
    lemma_decimal(a);
    lemma_decimal(b);
    let inner = node(op2, leaf(b), leaf(c));
    let whole = node(op1, leaf(a), inner);
    if is_additive(op1) {
        lemma_leaf_term(a, r1);
        lemma_leaf_term(b, r2);
        assert(parse_expr(mid) == Ok::<(Seq<char>, Expr), (Seq<char>, ParseErrorKind)>((empty, inner)));
    } else {
        lemma_constant_then(a, r1);
        lemma_constant_then(b, r2);
        lemma_leaf_term(c, empty);
        assert(parse_term(mid) == Ok::<(Seq<char>, Expr), (Seq<char>, ParseErrorKind)>((empty, inner)));
        assert(parse_term(text) == Ok::<(Seq<char>, Expr), (Seq<char>, ParseErrorKind)>((empty, whole)));
    }
}

} // verus!

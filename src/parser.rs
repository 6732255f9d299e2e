use vstd::prelude::*;

use crate::ast::{BinOp, ConstantVal, Expr, OpKind};

verus! {

/// What a grammar rule expected where it failed.
#[derive(Debug, PartialEq, Eq, Clone, Copy)]
pub enum ParseErrorKind {
    /// A run of one or more decimal digits.
    Digit,
    /// This literal character.
    Char(char),
    /// A digit run whose value does not fit in `i32`.
    TooLarge,
}

/// A failed parse: the input that was left where no rule matched, and what was expected.
#[derive(Debug, PartialEq)]
pub struct ParseError {
    pub rest: String,
    pub kind: ParseErrorKind,
}

/// The outcome of a grammar rule on a character sequence: the unconsumed suffix with
/// the parsed value, or the remaining input at the failure with what was expected.
pub type SpecResult<T> = Result<(Seq<char>, T), (Seq<char>, ParseErrorKind)>;

/// An executable parse result says the same as the spec outcome.
pub open spec fn agrees<'a, T>(r: Result<(&'a str, T), ParseError>, m: SpecResult<T>) -> bool {
    match r {
        Ok((rest, v)) => m == Ok::<(Seq<char>, T), (Seq<char>, ParseErrorKind)>((rest@, v)),
        Err(e) => m == Err::<(Seq<char>, T), (Seq<char>, ParseErrorKind)>((e.rest@, e.kind)),
    }
}

pub open spec fn is_digit(c: char) -> bool {
    '0' <= c <= '9'
}

pub open spec fn digit_value(c: char) -> int {
    c as int - '0' as int
}

/// The length of the run of digits that starts `s`.
pub open spec fn leading_digits(s: Seq<char>) -> nat
    decreases s.len(),
{
    if s.len() > 0 && is_digit(s[0]) {
        1 + leading_digits(s.drop_first())
    } else {
        0
    }
}

/// The number that a sequence of decimal digits denotes.
pub open spec fn digits_value(s: Seq<char>) -> int
    decreases s.len(),
{
    if s.len() == 0 {
        0
    } else {
        10 * digits_value(s.drop_last()) + digit_value(s.last())
    }
}

pub open spec fn add_op_of(c: char) -> Option<OpKind> {
    if c == '+' {
        Some(OpKind::Add)
    } else if c == '-' {
        Some(OpKind::Sub)
    } else {
        None
    }
}

pub open spec fn mul_op_of(c: char) -> Option<OpKind> {
    if c == '*' {
        Some(OpKind::Mul)
    } else if c == '/' {
        Some(OpKind::Div)
    } else {
        None
    }
}

/// `constant := digit+`, read as a non-negative `i32`.
pub open spec fn parse_constant(s: Seq<char>) -> SpecResult<ConstantVal> {
    let n = leading_digits(s);
    if n == 0 {
        Err((s, ParseErrorKind::Digit))
    } else if digits_value(s.take(n as int)) > i32::MAX {
        Err((s, ParseErrorKind::TooLarge))
    } else {
        Ok((s.skip(n as int), ConstantVal(digits_value(s.take(n as int)) as i32)))
    }
}

/// `expr := term [ ('+' | '-') expr ]`.
///
/// A tail that fails to parse is left unconsumed, unless it failed on a literal that
/// is too large. The bound on the length of `r` always holds (see `lemma_term_shrinks`).
pub open spec fn parse_expr(s: Seq<char>) -> SpecResult<Expr>
    decreases s.len(), 3nat,
{
    match parse_term(s) {
        Err(e) => Err(e),
        Ok((r, head)) => if 0 < r.len() <= s.len() {
            match add_op_of(r[0]) {
                None => Ok((r, head)),
                Some(op) => match parse_expr(r.drop_first()) {
                    Ok((r2, tail)) => Ok(
                        (r2, Expr::BinOp(Box::new(BinOp { op_kind: op, left_expr: head, right_expr: tail }))),
                    ),
                    Err((r2, k)) => if k == ParseErrorKind::TooLarge {
                        Err((r2, k))
                    } else {
                        Ok((r, head))
                    },
                },
            }
        } else {
            Ok((r, head))
        },
    }
}

/// `term := factor [ ('*' | '/') term ]`, with the same treatment of a failed tail as
/// `parse_expr`.
pub open spec fn parse_term(s: Seq<char>) -> SpecResult<Expr>
    decreases s.len(), 2nat,
{
    match parse_factor(s) {
        Err(e) => Err(e),
        Ok((r, head)) => if 0 < r.len() <= s.len() {
            match mul_op_of(r[0]) {
                None => Ok((r, head)),
                Some(op) => match parse_term(r.drop_first()) {
                    Ok((r2, tail)) => Ok(
                        (r2, Expr::BinOp(Box::new(BinOp { op_kind: op, left_expr: head, right_expr: tail }))),
                    ),
                    Err((r2, k)) => if k == ParseErrorKind::TooLarge {
                        Err((r2, k))
                    } else {
                        Ok((r, head))
                    },
                },
            }
        } else {
            Ok((r, head))
        },
    }
}

/// `factor := constant | paren_expr`: the parenthesized form is tried where no digit
/// starts the input.
pub open spec fn parse_factor(s: Seq<char>) -> SpecResult<Expr>
    decreases s.len(), 1nat,
{
    match parse_constant(s) {
        Ok((r, c)) => Ok((r, Expr::ConstantVal(c))),
        Err((r, k)) => if k == ParseErrorKind::Digit {
            parse_paren(s)
        } else {
            Err((r, k))
        },
    }
}

/// `paren_expr := '(' expr ')'`.
pub open spec fn parse_paren(s: Seq<char>) -> SpecResult<Expr>
    decreases s.len(), 0nat,
{
    if s.len() > 0 && s[0] == '(' {
        match parse_expr(s.drop_first()) {
            Err(e) => Err(e),
            Ok((r, e)) => if r.len() > 0 && r[0] == ')' {
                Ok((r.drop_first(), e))
            } else {
                Err((r, ParseErrorKind::Char(')')))
            },
        }
    } else {
        Err((s, ParseErrorKind::Char('(')))
    }
}

pub(crate) proof fn lemma_leading_digits(s: Seq<char>, i: int)
    requires
        0 <= i <= s.len(),
        forall|j: int| 0 <= j < i ==> is_digit(#[trigger] s[j]),
    ensures
        leading_digits(s) >= i,
        i == s.len() || !is_digit(s[i]) ==> leading_digits(s) == i,
    decreases i,
{
    if i > 0 {
        assert forall|j: int| 0 <= j < i - 1 implies is_digit(#[trigger] s.drop_first()[j]) by {
            assert(is_digit(s[j + 1]));
        }
        lemma_leading_digits(s.drop_first(), i - 1);
    }
}

proof fn lemma_leading_digits_bound(s: Seq<char>)
    ensures
        leading_digits(s) <= s.len(),
        forall|j: int| 0 <= j < leading_digits(s) ==> is_digit(#[trigger] s[j]),
    decreases s.len(),
{
    if s.len() > 0 && is_digit(s[0]) {
        lemma_leading_digits_bound(s.drop_first());
        assert forall|j: int| 0 <= j < leading_digits(s) implies is_digit(#[trigger] s[j]) by {
            if j > 0 {
                assert(s[j] == s.drop_first()[j - 1]);
            }
        }
    }
}

proof fn lemma_digits_nonneg(t: Seq<char>)
    requires
        forall|j: int| 0 <= j < t.len() ==> is_digit(#[trigger] t[j]),
    ensures
        digits_value(t) >= 0,
    decreases t.len(),
{
    if t.len() > 0 {
        assert(is_digit(t[t.len() - 1]));
        lemma_digits_nonneg(t.drop_last());
    }
}

proof fn lemma_digits_monotone(s: Seq<char>, i: int, n: int)
    requires
        0 <= i <= n <= s.len(),
        forall|j: int| 0 <= j < n ==> is_digit(#[trigger] s[j]),
    ensures
        0 <= digits_value(s.take(i)) <= digits_value(s.take(n)),
    decreases n - i,
{
    if i == n {
        lemma_digits_nonneg(s.take(n));
    } else {
        lemma_digits_monotone(s, i, n - 1);
        assert(s.take(n).drop_last() =~= s.take(n - 1));
        assert(is_digit(s[n - 1]));
    }
}

proof fn lemma_constant_shrinks(s: Seq<char>)
    ensures
        parse_constant(s) matches Ok((r, _)) ==> r.len() < s.len(),
{
    lemma_leading_digits_bound(s);
}

proof fn lemma_expr_shrinks(s: Seq<char>)
    ensures
        parse_expr(s) matches Ok((r, _)) ==> r.len() < s.len(),
    decreases s.len(), 3nat,
{
    lemma_term_shrinks(s);
    if let Ok((r, _)) = parse_term(s) {
        if r.len() > 0 {
            lemma_expr_shrinks(r.drop_first());
        }
    }
}

proof fn lemma_term_shrinks(s: Seq<char>)
    ensures
        parse_term(s) matches Ok((r, _)) ==> r.len() < s.len(),
    decreases s.len(), 2nat,
{
    lemma_factor_shrinks(s);
    if let Ok((r, _)) = parse_factor(s) {
        if r.len() > 0 {
            lemma_term_shrinks(r.drop_first());
        }
    }
}

proof fn lemma_factor_shrinks(s: Seq<char>)
    ensures
        parse_factor(s) matches Ok((r, _)) ==> r.len() < s.len(),
    decreases s.len(), 1nat,
{
    lemma_constant_shrinks(s);
    lemma_paren_shrinks(s);
}

proof fn lemma_paren_shrinks(s: Seq<char>)
    ensures
        parse_paren(s) matches Ok((r, _)) ==> r.len() < s.len(),
    decreases s.len(), 0nat,
{
    if s.len() > 0 {
        lemma_expr_shrinks(s.drop_first());
    }
}

fn read_add_op(c: char) -> (r: Option<OpKind>)
    ensures
        r == add_op_of(c),
{
    if c == '+' {
        Some(OpKind::Add)
    } else if c == '-' {
        Some(OpKind::Sub)
    } else {
        None
    }
}

fn read_mul_op(c: char) -> (r: Option<OpKind>)
    ensures
        r == mul_op_of(c),
{
    if c == '*' {
        Some(OpKind::Mul)
    } else if c == '/' {
        Some(OpKind::Div)
    } else {
        None
    }
}

/// Parses the run of decimal digits that starts `s` as a constant.
pub fn constant_val_parser(s: &str) -> (r: Result<(&str, ConstantVal), ParseError>)
    ensures
        agrees(r, parse_constant(s@)),
{
    let len = s.unicode_len();
    let mut i: usize = 0;
    let mut v: i32 = 0;
    loop
        invariant
            len == s@.len(),
            i <= len,
            forall|j: int| 0 <= j < i ==> is_digit(#[trigger] s@[j]),
            v == digits_value(s@.take(i as int)),
        ensures
            len == s@.len(),
            i <= len,
            forall|j: int| 0 <= j < i ==> is_digit(#[trigger] s@[j]),
            v == digits_value(s@.take(i as int)),
            i == len || !is_digit(s@[i as int]),
        decreases len - i,
    {
        if i == len {
            break;
        }
        let c = s.get_char(i);
        if !('0' <= c && c <= '9') {
            break;
        }
        let d = (c as u32 - '0' as u32) as i32;
        proof {
            assert(s@.take(i + 1).drop_last() =~= s@.take(i as int));
            lemma_digits_nonneg(s@.take(i as int));
        }
        let next = match v.checked_mul(10) {
            Some(m) => m.checked_add(d),
            None => None,
        };
        match next {
            Some(w) => {
                v = w;
                i = i + 1;
            },
            None => {
                proof {
                    lemma_leading_digits(s@, i + 1);
                    lemma_leading_digits_bound(s@);
                    lemma_digits_monotone(s@, i + 1, leading_digits(s@) as int);
                }
                return Err(ParseError { rest: s.to_owned(), kind: ParseErrorKind::TooLarge });
            },
        }
    }
    proof {
        lemma_leading_digits(s@, i as int);
    }
    if i == 0 {
        return Err(ParseError { rest: s.to_owned(), kind: ParseErrorKind::Digit });
    }
    Ok((s.substring_char(i, len), ConstantVal::new(v)))
}

/// Parses `expr := term [ ('+' | '-') expr ]`; `a - b - c` groups as `a - (b - c)`.
pub fn expr_parser(s: &str) -> (r: Result<(&str, Expr), ParseError>)
    ensures
        agrees(r, parse_expr(s@)),
    decreases s@.len(), 3nat,
{
    let (rest, head) = match term_parser(s) {
        Ok(p) => p,
        Err(e) => return Err(e),
    };
    proof {
        lemma_term_shrinks(s@);
    }
    let n = rest.unicode_len();
    if n == 0 {
        return Ok((rest, head));
    }
    let op = match read_add_op(rest.get_char(0)) {
        Some(op) => op,
        None => return Ok((rest, head)),
    };
    let tail_input = rest.substring_char(1, n);
    proof {
        assert(tail_input@ =~= rest@.drop_first());
    }
    match expr_parser(tail_input) {
        Ok((rest2, tail)) => Ok((rest2, Expr::BinOp(Box::new(BinOp::new(op, head, tail))))),
        Err(e) => match e.kind {
            ParseErrorKind::TooLarge => Err(e),
            _ => Ok((rest, head)),
        },
    }
}

/// Parses `paren_expr := '(' expr ')'` and returns the inner expression.
pub fn paren_expr_parser(s: &str) -> (r: Result<(&str, Expr), ParseError>)
    ensures
        agrees(r, parse_paren(s@)),
    decreases s@.len(), 0nat,
{
    let n = s.unicode_len();
    if n == 0 || s.get_char(0) != '(' {
        return Err(ParseError { rest: s.to_owned(), kind: ParseErrorKind::Char('(') });
    }
    let inner = s.substring_char(1, n);
    proof {
        assert(inner@ =~= s@.drop_first());
    }
    let (rest, e) = match expr_parser(inner) {
        Ok(p) => p,
        Err(err) => return Err(err),
    };
    let m = rest.unicode_len();
    if m == 0 || rest.get_char(0) != ')' {
        return Err(ParseError { rest: rest.to_owned(), kind: ParseErrorKind::Char(')') });
    }
    let after = rest.substring_char(1, m);
    proof {
        assert(after@ =~= rest@.drop_first());
    }
    Ok((after, e))
}

/// Parses `factor := constant | paren_expr`.
pub fn factor_parser(s: &str) -> (r: Result<(&str, Expr), ParseError>)
    ensures
        agrees(r, parse_factor(s@)),
    decreases s@.len(), 1nat,
{
    match constant_val_parser(s) {
        Ok((rest, c)) => Ok((rest, Expr::ConstantVal(c))),
        Err(e) => match e.kind {
            ParseErrorKind::Digit => paren_expr_parser(s),
            _ => Err(e),
        },
    }
}

/// Parses `term := factor [ ('*' | '/') term ]`; `a / b / c` groups as `a / (b / c)`.
pub fn term_parser(s: &str) -> (r: Result<(&str, Expr), ParseError>)
    ensures
        agrees(r, parse_term(s@)),
    decreases s@.len(), 2nat,
{
    let (rest, head) = match factor_parser(s) {
        Ok(p) => p,
        Err(e) => return Err(e),
    };
    proof {
        lemma_factor_shrinks(s@);
    }
    let n = rest.unicode_len();
    if n == 0 {
        return Ok((rest, head));
    }
    let op = match read_mul_op(rest.get_char(0)) {
        Some(op) => op,
        None => return Ok((rest, head)),
    };
    let tail_input = rest.substring_char(1, n);
    proof {
        assert(tail_input@ =~= rest@.drop_first());
    }
    match term_parser(tail_input) {
        Ok((rest2, tail)) => Ok((rest2, Expr::BinOp(Box::new(BinOp::new(op, head, tail))))),
        Err(e) => match e.kind {
            ParseErrorKind::TooLarge => Err(e),
            _ => Ok((rest, head)),
        },
    }
}

} // verus!

use vstd::prelude::*;

verus! {

/// An integer literal of an expression.
#[derive(Debug, PartialEq)]
pub struct ConstantVal(pub i32);

/// The four binary operators.
#[derive(Debug, PartialEq, Clone, Copy)]
pub enum OpKind {
    Add,
    Sub,
    Mul,
    Div,
}

/// An expression tree: a literal leaf, or an operator node that owns both operands.
#[derive(Debug, PartialEq)]
pub enum Expr {
    ConstantVal(ConstantVal),
    BinOp(Box<BinOp>),
}

/// A binary operation applied to two sub-expressions.
#[derive(Debug, PartialEq)]
pub struct BinOp {
    pub op_kind: OpKind,
    pub left_expr: Expr,
    pub right_expr: Expr,
}

/// What stops an evaluation: a zero divisor, or a result outside `i32`.
#[derive(Debug, PartialEq, Eq, Clone, Copy)]
pub enum ArithmeticFault {
    DivisionByZero,
    Overflow,
}

pub open spec fn fits_i32(v: int) -> bool {
    i32::MIN <= v <= i32::MAX
}

/// Division that truncates toward zero, as Rust's integer division does.
pub open spec fn trunc_div(a: int, b: int) -> int {
    if a >= 0 && b > 0 {
        a / b
    } else if a < 0 && b < 0 {
        (-a) / (-b)
    } else if a < 0 {
        -((-a) / b)
    } else {
        -(a / (-b))
    }
}

/// The mathematical result of an operator on two integers (`b != 0` for `Div`).
pub open spec fn apply_op(op: OpKind, a: int, b: int) -> int {
    match op {
        OpKind::Add => a + b,
        OpKind::Sub => a - b,
        OpKind::Mul => a * b,
        OpKind::Div => trunc_div(a, b),
    }
}

/// An operator applied to two evaluated operands: a zero divisor is a fault,
/// and so is a result that does not fit in `i32`.
pub open spec fn checked_op(op: OpKind, a: int, b: int) -> Result<int, ArithmeticFault> {
    if op == OpKind::Div && b == 0 {
        Err(ArithmeticFault::DivisionByZero)
    } else if fits_i32(apply_op(op, a, b)) {
        Ok(apply_op(op, a, b))
    } else {
        Err(ArithmeticFault::Overflow)
    }
}

impl ConstantVal {
    pub fn new(value: i32) -> (r: ConstantVal)
        ensures
            r.0 == value,
    {
        ConstantVal(value)
    }

    pub fn eval(&self) -> (r: i32)
        ensures
            r == self.0,
    {
        self.0
    }
}

impl Expr {
    /// The value of the tree, evaluated left operand first; the first fault met ends it.
    pub open spec fn value(&self) -> Result<int, ArithmeticFault>
        decreases self,
    {
        match self {
            Expr::ConstantVal(c) => Ok(c.0 as int),
            Expr::BinOp(b) => b.value(),
        }
    }

    /// Evaluates a tree that is known to evaluate without a fault.
    pub fn eval(&self) -> (r: i32)
        requires
            self.value() is Ok,
        ensures
            r == self.value()->Ok_0,
    {
        match self {
            Expr::ConstantVal(c) => c.eval(),
            Expr::BinOp(p) => p.eval(),
        }
    }

    /// Evaluates the tree, reporting a zero divisor or an overflow as a fault.
    pub fn try_eval(&self) -> (r: Result<i32, ArithmeticFault>)
        ensures
            r matches Ok(v) ==> self.value() == Ok::<int, ArithmeticFault>(v as int),
            r matches Err(f) ==> self.value() == Err::<int, ArithmeticFault>(f),
        decreases self,
    {
        match self {
            Expr::ConstantVal(c) => Ok(c.eval()),
            Expr::BinOp(p) => p.try_eval(),
        }
    }
}

impl BinOp {
    pub open spec fn value(&self) -> Result<int, ArithmeticFault>
        decreases self,
    {
        match self.left_expr.value() {
            Err(f) => Err(f),
            Ok(a) => match self.right_expr.value() {
                Err(f) => Err(f),
                Ok(b) => checked_op(self.op_kind, a, b),
            },
        }
    }

    pub fn new(op_kind: OpKind, left_expr: Expr, right_expr: Expr) -> (r: BinOp)
        ensures
            r.op_kind == op_kind,
            r.left_expr == left_expr,
            r.right_expr == right_expr,
    {
        BinOp { op_kind, left_expr, right_expr }
    }

    /// Evaluates an operation that is known to evaluate without a fault.
    pub fn eval(&self) -> (r: i32)
        requires
            self.value() is Ok,
        ensures
            r == self.value()->Ok_0,
    {
        match self.try_eval() {
            Ok(v) => v,
            Err(_) => {
                proof {
                    assert(false);
                }
                0
            },
        }
    }

    /// Evaluates the left operand, then the right one, then applies the operator.
    pub fn try_eval(&self) -> (r: Result<i32, ArithmeticFault>)
        ensures
            r matches Ok(v) ==> self.value() == Ok::<int, ArithmeticFault>(v as int),
            r matches Err(f) ==> self.value() == Err::<int, ArithmeticFault>(f),
        decreases self,
    {
        let a = match self.left_expr.try_eval() {
            Ok(a) => a,
            Err(f) => return Err(f),
        };
        let b = match self.right_expr.try_eval() {
            Ok(b) => b,
            Err(f) => return Err(f),
        };
        let r = match self.op_kind {
            OpKind::Add => a.checked_add(b),
            OpKind::Sub => a.checked_sub(b),
            OpKind::Mul => a.checked_mul(b),
            OpKind::Div => {
                if b == 0 {
                    return Err(ArithmeticFault::DivisionByZero);
                }
                a.checked_div(b)
            },
        };
        match r {
            Some(v) => Ok(v),
            None => Err(ArithmeticFault::Overflow),
        }
    }
}

} // verus!

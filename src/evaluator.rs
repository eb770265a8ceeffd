use vstd::prelude::*;
use crate::parser::{Expr, Op};

verus! {

/// Why an expression has no value in unsigned 64-bit arithmetic.
#[derive(PartialEq, Eq, Structural, Debug, Copy, Clone)]
pub enum EvalError {
    DivisionByZero,
    /// A sum or product exceeds `u64::MAX`.
    Overflow,
    /// A difference would be negative.
    Underflow,
}

/// `a op b` in unsigned 64-bit arithmetic: checked, with division truncating.
pub open spec fn apply_spec(op: Op, a: u64, b: u64) -> Result<u64, EvalError> {
    match op {
        Op::Add => if a + b > u64::MAX {
            Err(EvalError::Overflow)
        } else {
            Ok((a + b) as u64)
        },
        Op::Sub => if b > a {
            Err(EvalError::Underflow)
        } else {
            Ok((a - b) as u64)
        },
        Op::Mul => if a * b > u64::MAX {
            Err(EvalError::Overflow)
        } else {
            Ok((a * b) as u64)
        },
        Op::Div => if b == 0 {
            Err(EvalError::DivisionByZero)
        } else {
            Ok(a / b)
        },
    }
}

/// The value of an expression tree, operands before operators and left
/// operand before right: the first error met is the result.
pub open spec fn eval(e: Expr) -> Result<u64, EvalError>
    decreases e,
{
    match e {
        Expr::Literal(v) => Ok(v),
        Expr::BinaryOp(op, l, r) => match eval(*l) {
            Err(err) => Err(err),
            Ok(a) => match eval(*r) {
                Err(err) => Err(err),
                Ok(b) => apply_spec(op, a, b),
            },
        },
    }
}

pub fn apply(op: Op, a: u64, b: u64) -> (r: Result<u64, EvalError>)
    ensures
        r == apply_spec(op, a, b),
{
    match op {
        Op::Add => match a.checked_add(b) {
            Some(v) => Ok(v),
            None => Err(EvalError::Overflow),
        },
        Op::Sub => if b > a {
            Err(EvalError::Underflow)
        } else {
            Ok(a - b)
        },
        Op::Mul => match a.checked_mul(b) {
            Some(v) => Ok(v),
            None => Err(EvalError::Overflow),
        },
        Op::Div => if b == 0 {
            Err(EvalError::DivisionByZero)
        } else {
            Ok(a / b)
        },
    }
}

/// Evaluates an expression tree.
pub fn eval_expr(expr: &Expr) -> (r: Result<u64, EvalError>)
    ensures
        r == eval(*expr),
    decreases expr,
{
    match expr {
        Expr::Literal(v) => Ok(*v),
        Expr::BinaryOp(op, l, r) => {
            let a = match eval_expr(l) {
                Ok(a) => a,
                Err(err) => return Err(err),
            };
            let b = match eval_expr(r) {
                Ok(b) => b,
                Err(err) => return Err(err),
            };
            apply(*op, a, b)
        },
    }
}

} // verus!

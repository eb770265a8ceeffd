use expr_calc::evaluator::{apply, eval_expr, EvalError};
use expr_calc::parser::{Expr, Op};

fn lit(v: u64) -> Box<Expr> {
    Box::new(Expr::Literal(v))
}

#[test]
fn applies_each_operator() {
    assert_eq!(apply(Op::Add, 2, 3), Ok(5));
    assert_eq!(apply(Op::Sub, 7, 3), Ok(4));
    assert_eq!(apply(Op::Mul, 6, 7), Ok(42));
    assert_eq!(apply(Op::Div, 7, 2), Ok(3));
    assert_eq!(apply(Op::Sub, 3, 3), Ok(0));
}

#[test]
fn checked_arithmetic_errors() {
    assert_eq!(apply(Op::Add, u64::MAX, 1), Err(EvalError::Overflow));
    assert_eq!(apply(Op::Add, u64::MAX, 0), Ok(u64::MAX));
    assert_eq!(apply(Op::Mul, 1 << 32, 1 << 32), Err(EvalError::Overflow));
    assert_eq!(apply(Op::Sub, 2, 3), Err(EvalError::Underflow));
    assert_eq!(apply(Op::Div, 5, 0), Err(EvalError::DivisionByZero));
}

#[test]
fn evaluates_a_tree() {
    let e = Expr::BinaryOp(
        Op::Mul,
        Box::new(Expr::BinaryOp(Op::Add, lit(1), lit(2))),
        lit(3),
    );
    assert_eq!(eval_expr(&e), Ok(9));
    assert_eq!(eval_expr(&Expr::Literal(17)), Ok(17));
}

#[test]
fn left_error_comes_first() {
    let e = Expr::BinaryOp(
        Op::Add,
        Box::new(Expr::BinaryOp(Op::Sub, lit(1), lit(2))),
        Box::new(Expr::BinaryOp(Op::Div, lit(1), lit(0))),
    );
    assert_eq!(eval_expr(&e), Err(EvalError::Underflow));
}

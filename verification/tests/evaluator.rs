use iwwc::config::math::ast::{BinaryOp, Function};
use iwwc::config::math::error::EvalErrorKind;
use iwwc::config::math::evaluator::{
    check_min_max, check_round, eval_binop, eval_min_max, eval_neg, max_prec, unknown_variable,
    Operand, Outcome,
};

fn i(n: i128) -> Operand {
    Operand::Int(n)
}

#[test]
fn var_not_found() {
    let err = unknown_variable("missing");
    assert_eq!(err.kind, EvalErrorKind::UnknownVariable);
    assert_eq!(err.message, "variable \"missing\" is not defined");
}

#[test]
fn int_add() {
    assert_eq!(eval_binop(BinaryOp::Add, &i(2), &i(3)).unwrap(), Outcome::Int(5));
}

#[test]
fn int_div_truncates() {
    assert_eq!(eval_binop(BinaryOp::Div, &i(5), &i(4)).unwrap(), Outcome::Int(1));
    assert_eq!(eval_binop(BinaryOp::Div, &i(-7), &i(2)).unwrap(), Outcome::Int(-3));
}

#[test]
fn int_div_by_zero() {
    let err = eval_binop(BinaryOp::Div, &i(1), &i(0)).unwrap_err();
    assert_eq!(err.kind, EvalErrorKind::DivByZero);
    let err = eval_binop(BinaryOp::Mod, &i(1), &i(0)).unwrap_err();
    assert_eq!(err.message, "division by zero");
}

#[test]
fn int_pow() {
    assert_eq!(eval_binop(BinaryOp::Pow, &i(3), &i(2)).unwrap(), Outcome::Int(9));
    assert_eq!(eval_binop(BinaryOp::Pow, &i(2), &i(-1)).unwrap(), Outcome::NegativePower(2, -1));
    assert_eq!(eval_binop(BinaryOp::Pow, &i(-1), &i(4_000_000_001)).unwrap(), Outcome::Int(-1));
    assert_eq!(eval_binop(BinaryOp::Pow, &i(1), &i(5_000_000_000)).unwrap_err().kind, EvalErrorKind::Overflow);
    assert_eq!(eval_binop(BinaryOp::Pow, &i(2), &i(126)).unwrap(), Outcome::Int(1i128 << 126));
    assert_eq!(eval_binop(BinaryOp::Pow, &i(2), &i(127)).unwrap_err().kind, EvalErrorKind::Overflow);
    assert_eq!(eval_binop(BinaryOp::Pow, &i(-2), &i(127)).unwrap(), Outcome::Int(i128::MIN));
}

#[test]
fn int_mod() {
    assert_eq!(eval_binop(BinaryOp::Mod, &i(3), &i(2)).unwrap(), Outcome::Int(1));
    assert_eq!(eval_binop(BinaryOp::Mod, &i(-7), &i(2)).unwrap(), Outcome::Int(-1));
    assert_eq!(eval_binop(BinaryOp::Mod, &i(i128::MIN), &i(-1)).unwrap_err().kind, EvalErrorKind::Overflow);
}

#[test]
fn int_overflow() {
    let err = eval_binop(BinaryOp::Add, &i(i128::MAX), &i(1)).unwrap_err();
    assert_eq!(err.kind, EvalErrorKind::Overflow);
    assert_eq!(err.message, "integer overflow in expression");
    assert_eq!(eval_binop(BinaryOp::Div, &i(i128::MIN), &i(-1)).unwrap_err().kind, EvalErrorKind::Overflow);
}

#[test]
fn unary_neg_int() {
    assert_eq!(eval_neg(&i(5)).unwrap(), Outcome::Int(-5));
    assert_eq!(eval_neg(&i(i128::MIN)).unwrap_err().kind, EvalErrorKind::Overflow);
    assert_eq!(eval_neg(&Operand::Float).unwrap(), Outcome::Decimal);
    assert_eq!(eval_neg(&Operand::Bool(true)).unwrap_err().message, "math ops cannot be applied to booleans");
}

#[test]
fn math_op_on_string_errors() {
    let err = eval_binop(BinaryOp::Div, &Operand::Str("xfdf".into()), &i(2)).unwrap_err();
    assert_eq!(err.kind, EvalErrorKind::TypeMismatch);
    assert_eq!(err.message, "math ops cannot be applied to strings");
}

#[test]
fn math_op_on_bool_errors() {
    let err = eval_binop(BinaryOp::Add, &Operand::Bool(true), &i(1)).unwrap_err();
    assert_eq!(err.kind, EvalErrorKind::TypeMismatch);
    assert_eq!(err.message, "math ops cannot be applied to booleans");
}

#[test]
fn ordering_refuses_strings_and_booleans() {
    let err = eval_binop(BinaryOp::Lt, &Operand::Bool(true), &Operand::Str("a".into())).unwrap_err();
    assert_eq!(err.message, "ordering comparisons cannot be applied to strings");
    let err = eval_binop(BinaryOp::Ge, &Operand::Bool(true), &i(1)).unwrap_err();
    assert_eq!(err.message, "ordering comparisons cannot be applied to booleans");
}

#[test]
fn cmp_lt_int() {
    assert_eq!(eval_binop(BinaryOp::Lt, &i(2), &i(3)).unwrap(), Outcome::Bool(true));
}

#[test]
fn cmp_ge_mixed() {
    assert_eq!(eval_binop(BinaryOp::Ge, &Operand::Float, &i(2)).unwrap(), Outcome::Decimal);
}

#[test]
fn cmp_eq_strings() {
    let a = Operand::Str("hi".into());
    let b = Operand::Str("hi".into());
    assert_eq!(eval_binop(BinaryOp::Eq, &a, &b).unwrap(), Outcome::Bool(true));
    assert_eq!(eval_binop(BinaryOp::Ne, &a, &b).unwrap(), Outcome::Bool(false));
}

#[test]
fn cmp_eq_cross_type_false() {
    let s = Operand::Str("1".into());
    assert_eq!(eval_binop(BinaryOp::Eq, &i(1), &s).unwrap(), Outcome::Bool(false));
    assert_eq!(eval_binop(BinaryOp::Ne, &i(1), &s).unwrap(), Outcome::Bool(true));
    assert_eq!(eval_binop(BinaryOp::Eq, &i(1), &Operand::Float).unwrap(), Outcome::Bool(false));
    assert_eq!(eval_binop(BinaryOp::Eq, &Operand::Float, &Operand::Float).unwrap(), Outcome::Decimal);
}

#[test]
fn round_missing_precision() {
    let err = check_round(1, None).unwrap_err();
    assert_eq!(err.kind, EvalErrorKind::MissingPrecision);
    assert_eq!(check_round(1, Some(2)).unwrap(), 2);
}

#[test]
fn round_wrong_arity() {
    let err = check_round(2, Some(1)).unwrap_err();
    assert_eq!(err.kind, EvalErrorKind::WrongArity);
    assert_eq!(err.message, "round expects 1 argument, got 2");
}

#[test]
fn min_two_args() {
    assert_eq!(eval_min_max(Function::Min, &i(3), &i(5)).unwrap(), Outcome::Int(3));
    assert_eq!(eval_min_max(Function::Max, &i(3), &i(5)).unwrap(), Outcome::Int(5));
    assert_eq!(eval_min_max(Function::Min, &i(3), &Operand::Float).unwrap(), Outcome::Decimal);
    let err = eval_min_max(Function::Max, &i(3), &Operand::Str("x".into())).unwrap_err();
    assert_eq!(err.message, "math ops cannot be applied to strings");
}

#[test]
fn min_wrong_arity() {
    let err = check_min_max(Function::Min, 1).unwrap_err();
    assert_eq!(err.kind, EvalErrorKind::WrongArity);
    assert_eq!(err.message, "min expects 2 arguments, got 1");
    assert!(check_min_max(Function::Max, 2).is_ok());
}

#[test]
fn precision_of_mixed_operands() {
    assert_eq!(max_prec(Some(1), None), Some(1));
    assert_eq!(max_prec(Some(1), Some(3)), Some(3));
    assert_eq!(max_prec(None, Some(2)), Some(2));
    assert_eq!(max_prec(None, None), None);
}

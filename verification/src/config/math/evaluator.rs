//! The typing and integer rules of expression evaluation.
//!
//! Decimal arithmetic is done by the caller in floating point; the rules
//! here decide, for every operator and pair of operand kinds, whether the
//! result is an error, a boolean, an exact integer, or a decimal to be
//! computed.

use vstd::prelude::*;
use crate::config::math::ast::{BinaryOp, Function};
use crate::config::math::error::{eval_err, expr_span, EvalError, EvalErrorKind};
use crate::number::{decimal, decimal_of};
use crate::text::{owned, push_str, str_eq};

verus! {

/// An operand as the rules see it: integers, booleans and strings with
/// their value; a decimal only as a decimal.
#[derive(Debug, Clone, PartialEq, Eq)]
pub enum Operand {
    Int(i128),
    Float,
    Bool(bool),
    Str(String),
}

pub enum OperandView {
    Int(int),
    Float,
    Bool(bool),
    Str(Seq<char>),
}

impl View for Operand {
    type V = OperandView;

    open spec fn view(&self) -> OperandView {
        match self {
            Operand::Int(i) => OperandView::Int(*i as int),
            Operand::Float => OperandView::Float,
            Operand::Bool(b) => OperandView::Bool(*b),
            Operand::Str(s) => OperandView::Str(s@),
        }
    }
}

/// What applying a binary operator comes to.
#[derive(Debug, Clone, Copy, PartialEq, Eq, Structural)]
pub enum Outcome {
    Int(i128),
    Bool(bool),
    /// Both operands are numbers and one is a decimal: the operator is
    /// applied in floating point.
    Decimal,
    /// An integer raised to a negative integer power: a decimal.
    NegativePower(i128, i128),
}

pub open spec fn kind_of(v: OperandView) -> int {
    match v {
        OperandView::Int(_) => 0,
        OperandView::Float => 1,
        OperandView::Bool(_) => 2,
        OperandView::Str(_) => 3,
    }
}

pub open spec fn is_arith(op: BinaryOp) -> bool {
    op == BinaryOp::Add || op == BinaryOp::Sub || op == BinaryOp::Mul || op == BinaryOp::Div
        || op == BinaryOp::Mod || op == BinaryOp::Pow
}

pub open spec fn is_order(op: BinaryOp) -> bool {
    op == BinaryOp::Lt || op == BinaryOp::Gt || op == BinaryOp::Le || op == BinaryOp::Ge
}

pub open spec fn in_i128(x: int) -> bool {
    i128::MIN <= x <= i128::MAX
}

/// Rust's `/` on integers: the quotient of the magnitudes, negated when
/// the signs differ (rounding toward zero).
pub open spec fn trunc_div(a: int, b: int) -> int {
    if a == 0 {
        0
    } else if a > 0 && b > 0 {
        a / b
    } else if a < 0 && b < 0 {
        (a * -1) / (b * -1)
    } else if a < 0 {
        ((a * -1) / b) * -1
    } else {
        (a / (b * -1)) * -1
    }
}

/// Rust's `%` on integers: the remainder of the magnitudes, with the sign
/// of `a`.
pub open spec fn trunc_rem(a: int, b: int) -> int {
    if a == 0 {
        0
    } else if a > 0 && b > 0 {
        a % b
    } else if a < 0 && b < 0 {
        ((a * -1) % (b * -1)) * -1
    } else if a < 0 {
        ((a * -1) % b) * -1
    } else {
        a % (b * -1)
    }
}

/// `b` to the power `e`.
pub open spec fn pow(b: int, e: nat) -> int
    decreases e,
{
    if e == 0 { 1 } else { b * pow(b, (e - 1) as nat) }
}

pub type Failure = (EvalErrorKind, Seq<char>);

pub open spec fn overflow_failure() -> Failure {
    (EvalErrorKind::Overflow, "integer overflow in expression"@)
}

pub open spec fn div_zero_failure() -> Failure {
    (EvalErrorKind::DivByZero, "division by zero"@)
}

/// An integer result, or overflow when it leaves the `i128` range.
pub open spec fn checked(x: int) -> Result<Outcome, Failure> {
    if in_i128(x) { Ok(Outcome::Int(x as i128)) } else { Err(overflow_failure()) }
}

/// An operator applied to two integers.
pub open spec fn int_binop(op: BinaryOp, a: int, b: int) -> Result<Outcome, Failure> {
    match op {
        BinaryOp::Add => checked(a + b),
        BinaryOp::Sub => checked(a - b),
        BinaryOp::Mul => checked(a * b),
        BinaryOp::Div => if b == 0 { Err(div_zero_failure()) } else { checked(trunc_div(a, b)) },
        BinaryOp::Mod => if b == 0 { Err(div_zero_failure()) } else if a == i128::MIN && b == -1 {
            Err(overflow_failure())
        } else {
            checked(trunc_rem(a, b))
        },
        BinaryOp::Pow => if b < 0 {
            Ok(Outcome::NegativePower(a as i128, b as i128))
        } else if b > u32::MAX {
            Err(overflow_failure())
        } else {
            checked(pow(a, b as nat))
        },
        BinaryOp::Lt => Ok(Outcome::Bool(a < b)),
        BinaryOp::Gt => Ok(Outcome::Bool(a > b)),
        BinaryOp::Le => Ok(Outcome::Bool(a <= b)),
        BinaryOp::Ge => Ok(Outcome::Bool(a >= b)),
        BinaryOp::Eq => Ok(Outcome::Bool(a == b)),
        BinaryOp::Ne => Ok(Outcome::Bool(a != b)),
    }
}

/// A binary operator applied to two operands. `==`/`!=` compare strings
/// and booleans by value, and operands of different kinds are never equal;
/// arithmetic and ordering refuse strings, then booleans; two integers are
/// computed exactly; any other pair of numbers is a decimal computation.
pub open spec fn spec_binop(op: BinaryOp, l: OperandView, r: OperandView) -> Result<Outcome, Failure> {
    if (op == BinaryOp::Eq || op == BinaryOp::Ne) && (l is Str && r is Str) {
        Ok(Outcome::Bool((l->Str_0 == r->Str_0) == (op == BinaryOp::Eq)))
    } else if (op == BinaryOp::Eq || op == BinaryOp::Ne) && (l is Bool && r is Bool) {
        Ok(Outcome::Bool((l->Bool_0 == r->Bool_0) == (op == BinaryOp::Eq)))
    } else if (op == BinaryOp::Eq || op == BinaryOp::Ne) && kind_of(l) != kind_of(r) {
        Ok(Outcome::Bool(op == BinaryOp::Ne))
    } else if is_arith(op) && (l is Str || r is Str) {
        Err((EvalErrorKind::TypeMismatch, "math ops cannot be applied to strings"@))
    } else if is_arith(op) && (l is Bool || r is Bool) {
        Err((EvalErrorKind::TypeMismatch, "math ops cannot be applied to booleans"@))
    } else if is_order(op) && (l is Str || r is Str) {
        Err((EvalErrorKind::TypeMismatch, "ordering comparisons cannot be applied to strings"@))
    } else if is_order(op) && (l is Bool || r is Bool) {
        Err((EvalErrorKind::TypeMismatch, "ordering comparisons cannot be applied to booleans"@))
    } else {
        match (l, r) {
            (OperandView::Int(a), OperandView::Int(b)) => int_binop(op, a, b),
            _ => Ok(Outcome::Decimal),
        }
    }
}

pub open spec fn failure_of(e: EvalError) -> Failure {
    (e.kind, e.message@)
}

/// The error for integer overflow.
pub fn overflow() -> (e: EvalError)
    ensures
        failure_of(e) == overflow_failure(),
        expr_span(e.span),
{
    eval_err(EvalErrorKind::Overflow, owned("integer overflow in expression"))
}

/// The error for a division or remainder by zero.
pub fn div_by_zero() -> (e: EvalError)
    ensures
        failure_of(e) == div_zero_failure(),
        expr_span(e.span),
{
    eval_err(EvalErrorKind::DivByZero, owned("division by zero"))
}

fn mismatch(msg: &str) -> (e: EvalError)
    ensures
        failure_of(e) == (EvalErrorKind::TypeMismatch, msg@),
        expr_span(e.span),
{
    eval_err(EvalErrorKind::TypeMismatch, owned(msg))
}

/// |b^(e+1)| >= |b^e| when |b| >= 1.
proof fn lemma_pow_grows(b: int, e: nat)
    requires
        b >= 2 || b <= -2,
    ensures
        (pow(b, e + 1) >= 0 ==> pow(b, e + 1) >= 2 * (if pow(b, e) >= 0 { pow(b, e) } else { -pow(b, e) })),
        (pow(b, e + 1) < 0 ==> -pow(b, e + 1) >= 2 * (if pow(b, e) >= 0 { pow(b, e) } else { -pow(b, e) })),
{
    let p = pow(b, e);
    assert(pow(b, e + 1) == b * p);
    assert((b * p >= 0 ==> b * p >= 2 * (if p >= 0 { p } else { -p }))
        && (b * p < 0 ==> -(b * p) >= 2 * (if p >= 0 { p } else { -p }))) by (nonlinear_arith)
        requires b >= 2 || b <= -2;
}

/// Once a power of `b` leaves the `i128` range, every higher one does.
proof fn lemma_pow_stays_out(b: int, e: nat, f: nat)
    requires
        b >= 2 || b <= -2,
        e <= f,
        !in_i128(pow(b, e)),
    ensures
        !in_i128(pow(b, f)),
    decreases f - e,
{
    if e < f {
        lemma_pow_grows(b, e);
        lemma_pow_stays_out(b, e + 1, f);
    }
}

proof fn lemma_pow_small(b: int, e: nat)
    requires
        -1 <= b <= 1,
    ensures
        b == 0 ==> pow(b, e) == (if e == 0 { 1int } else { 0int }),
        b == 1 ==> pow(b, e) == 1,
        b == -1 ==> pow(b, e) == (if e % 2 == 0 { 1int } else { -1int }),
    decreases e,
{
    if e > 0 {
        lemma_pow_small(b, (e - 1) as nat);
    }
}

/// `a` to the power `e`, or `None` on overflow (`i128::checked_pow`).
fn checked_pow(a: i128, e: u32) -> (r: Option<i128>)
    ensures
        in_i128(pow(a as int, e as nat)) ==> r == Some(pow(a as int, e as nat) as i128),
        !in_i128(pow(a as int, e as nat)) ==> r is None,
{
    if a == 0 || a == 1 || a == -1 {
        proof {
            lemma_pow_small(a as int, e as nat);
        }
        if a == 1 {
            return Some(1);
        } else if a == 0 {
            return if e == 0 { Some(1) } else { Some(0) };
        } else {
            return if e % 2 == 0 { Some(1) } else { Some(-1) };
        }
    }
    let mut acc: i128 = 1;
    let mut i: u32 = 0;
    while i < e
        invariant
            a >= 2 || a <= -2,
            i <= e,
            acc as int == pow(a as int, i as nat),
        decreases e - i,
    {
        proof {
            assert(pow(a as int, (i + 1) as nat) == a * pow(a as int, i as nat));
        }
        match acc.checked_mul(a) {
            Some(v) => {
                assert(v as int == pow(a as int, (i + 1) as nat)) by (nonlinear_arith)
                    requires v as int == acc as int * a as int, acc as int == pow(a as int, i as nat),
                        pow(a as int, (i + 1) as nat) == a * pow(a as int, i as nat);
                acc = v;
            },
            None => {
                proof {
                    assert(pow(a as int, (i + 1) as nat) == acc as int * a as int) by (nonlinear_arith)
                        requires acc as int == pow(a as int, i as nat),
                            pow(a as int, (i + 1) as nat) == a * pow(a as int, i as nat);
                    lemma_pow_stays_out(a as int, (i + 1) as nat, e as nat);
                }
                return None;
            },
        }
        i = i + 1;
    }
    Some(acc)
}

/// An operator applied to two integers.
fn apply_ints(op: BinaryOp, a: i128, b: i128) -> (r: Result<Outcome, EvalError>)
    ensures
        match int_binop(op, a as int, b as int) {
            Ok(o) => r == Ok::<Outcome, EvalError>(o),
            Err(f) => r matches Err(e) && failure_of(e) == f && expr_span(e.span),
        },
{
    match op {
        BinaryOp::Add => match a.checked_add(b) {
            Some(v) => Ok(Outcome::Int(v)),
            None => Err(overflow()),
        },
        BinaryOp::Sub => match a.checked_sub(b) {
            Some(v) => Ok(Outcome::Int(v)),
            None => Err(overflow()),
        },
        BinaryOp::Mul => match a.checked_mul(b) {
            Some(v) => Ok(Outcome::Int(v)),
            None => Err(overflow()),
        },
        BinaryOp::Div => {
            if b == 0 {
                Err(div_by_zero())
            } else {
                match a.checked_div(b) {
                    Some(v) => Ok(Outcome::Int(v)),
                    None => Err(overflow()),
                }
            }
        },
        BinaryOp::Mod => {
            if b == 0 {
                Err(div_by_zero())
            } else {
                match a.checked_rem(b) {
                    Some(v) => Ok(Outcome::Int(v)),
                    None => Err(overflow()),
                }
            }
        },
        BinaryOp::Pow => {
            if b < 0 {
                Ok(Outcome::NegativePower(a, b))
            } else if b > 0xffff_ffffi128 {
                Err(overflow())
            } else {
                match checked_pow(a, b as u32) {
                    Some(v) => Ok(Outcome::Int(v)),
                    None => Err(overflow()),
                }
            }
        },
        BinaryOp::Lt => Ok(Outcome::Bool(a < b)),
        BinaryOp::Gt => Ok(Outcome::Bool(a > b)),
        BinaryOp::Le => Ok(Outcome::Bool(a <= b)),
        BinaryOp::Ge => Ok(Outcome::Bool(a >= b)),
        BinaryOp::Eq => Ok(Outcome::Bool(a == b)),
        BinaryOp::Ne => Ok(Outcome::Bool(a != b)),
    }
}

/// Applies a binary operator to two operands.
pub fn eval_binop(op: BinaryOp, lhs: &Operand, rhs: &Operand) -> (r: Result<Outcome, EvalError>)
    ensures
        match spec_binop(op, lhs@, rhs@) {
            Ok(o) => r == Ok::<Outcome, EvalError>(o),
            Err(f) => r matches Err(e) && failure_of(e) == f && expr_span(e.span),
        },
{
    let eq_like = match op {
        BinaryOp::Eq | BinaryOp::Ne => true,
        _ => false,
    };
    let is_eq = match op {
        BinaryOp::Eq => true,
        _ => false,
    };
    if eq_like {
        match (lhs, rhs) {
            (Operand::Str(a), Operand::Str(b)) => {
                let same = str_eq(a.as_str(), b.as_str());
                return Ok(Outcome::Bool(if is_eq { same } else { !same }));
            },
            (Operand::Bool(a), Operand::Bool(b)) => {
                return Ok(Outcome::Bool(if is_eq { *a == *b } else { *a != *b }));
            },
            (Operand::Int(_), Operand::Int(_)) | (Operand::Float, Operand::Float) => {},
            _ => {
                return Ok(Outcome::Bool(!is_eq));
            },
        }
    }
    let l_str = match lhs { Operand::Str(_) => true, _ => false };
    let r_str = match rhs { Operand::Str(_) => true, _ => false };
    let l_bool = match lhs { Operand::Bool(_) => true, _ => false };
    let r_bool = match rhs { Operand::Bool(_) => true, _ => false };
    match op {
        BinaryOp::Add | BinaryOp::Sub | BinaryOp::Mul | BinaryOp::Div | BinaryOp::Mod | BinaryOp::Pow => {
            if l_str || r_str {
                return Err(mismatch("math ops cannot be applied to strings"));
            }
            if l_bool || r_bool {
                return Err(mismatch("math ops cannot be applied to booleans"));
            }
        },
        BinaryOp::Lt | BinaryOp::Gt | BinaryOp::Le | BinaryOp::Ge => {
            if l_str || r_str {
                return Err(mismatch("ordering comparisons cannot be applied to strings"));
            }
            if l_bool || r_bool {
                return Err(mismatch("ordering comparisons cannot be applied to booleans"));
            }
        },
        BinaryOp::Eq | BinaryOp::Ne => {},
    }
    match (lhs, rhs) {
        (Operand::Int(a), Operand::Int(b)) => apply_ints(op, *a, *b),
        _ => Ok(Outcome::Decimal),
    }
}

/// The larger of two precisions, when either is given.
pub open spec fn spec_max_prec(a: Option<u8>, b: Option<u8>) -> Option<u8> {
    match (a, b) {
        (Some(x), Some(y)) => Some(if x >= y { x } else { y }),
        (Some(x), None) => Some(x),
        (None, Some(y)) => Some(y),
        (None, None) => None,
    }
}

/// The precision of a decimal computed from two operands.
pub fn max_prec(a: Option<u8>, b: Option<u8>) -> (r: Option<u8>)
    ensures
        r == spec_max_prec(a, b),
{
    match (a, b) {
        (Some(x), Some(y)) => Some(if x >= y { x } else { y }),
        (Some(x), None) => Some(x),
        (None, Some(y)) => Some(y),
        (None, None) => None,
    }
}

/// What negating an operand comes to.
pub open spec fn spec_neg(v: OperandView) -> Result<Outcome, Failure> {
    match v {
        OperandView::Int(i) => checked(-i),
        OperandView::Float => Ok(Outcome::Decimal),
        OperandView::Str(_) => Err((EvalErrorKind::TypeMismatch, "math ops cannot be applied to strings"@)),
        OperandView::Bool(_) => Err((EvalErrorKind::TypeMismatch, "math ops cannot be applied to booleans"@)),
    }
}

/// The complaint about using a string or a boolean as a number.
pub fn type_mismatch_for(v: &Operand) -> (e: EvalError)
    ensures
        e.kind == EvalErrorKind::TypeMismatch,
        expr_span(e.span),
        e.message@ == (match v@ {
            OperandView::Str(_) => "math ops cannot be applied to strings"@,
            OperandView::Bool(_) => "math ops cannot be applied to booleans"@,
            _ => "type mismatch"@,
        }),
{
    match v {
        Operand::Str(_) => mismatch("math ops cannot be applied to strings"),
        Operand::Bool(_) => mismatch("math ops cannot be applied to booleans"),
        _ => mismatch("type mismatch"),
    }
}

/// Unary minus.
pub fn eval_neg(v: &Operand) -> (r: Result<Outcome, EvalError>)
    ensures
        match spec_neg(v@) {
            Ok(o) => r == Ok::<Outcome, EvalError>(o),
            Err(f) => r matches Err(e) && failure_of(e) == f && expr_span(e.span),
        },
{
    match v {
        Operand::Int(i) => {
            if *i == i128::MIN {
                Err(overflow())
            } else {
                Ok(Outcome::Int(-*i))
            }
        },
        Operand::Float => Ok(Outcome::Decimal),
        _ => Err(type_mismatch_for(v)),
    }
}

/// The error for a variable that is not defined.
pub fn unknown_variable(name: &str) -> (e: EvalError)
    ensures
        e.kind == EvalErrorKind::UnknownVariable,
        e.message@ == "variable \""@ + name@ + "\" is not defined"@,
        expr_span(e.span),
{
    let mut m = owned("variable \"");
    push_str(&mut m, name);
    push_str(&mut m, "\" is not defined");
    eval_err(EvalErrorKind::UnknownVariable, m)
}

/// The checks of `round(x).N` before its argument is evaluated: exactly one
/// argument, and a precision; gives the precision.
pub fn check_round(nargs: usize, precision: Option<u8>) -> (r: Result<u8, EvalError>)
    ensures
        nargs != 1 ==> (r matches Err(e) && e.kind == EvalErrorKind::WrongArity
            && e.message@ == "round expects 1 argument, got "@ + decimal_of(nargs as nat)),
        nargs == 1 && precision is None ==> (r matches Err(e) && e.kind == EvalErrorKind::MissingPrecision
            && e.message@ == "round() requires a .N precision suffix, e.g. round(x).1"@),
        nargs == 1 && precision is Some ==> r == Ok::<u8, EvalError>(precision->0),
        r matches Err(e) ==> expr_span(e.span),
{
    if nargs != 1 {
        let mut m = owned("round expects 1 argument, got ");
        let n = decimal(nargs);
        push_str(&mut m, n.as_str());
        return Err(eval_err(EvalErrorKind::WrongArity, m));
    }
    match precision {
        Some(n) => Ok(n),
        None => Err(eval_err(EvalErrorKind::MissingPrecision,
            owned("round() requires a .N precision suffix, e.g. round(x).1"))),
    }
}

/// The arity check of `min`/`max`: exactly two arguments.
pub fn check_min_max(func: Function, nargs: usize) -> (r: Result<(), EvalError>)
    requires
        func != Function::Round,
    ensures
        nargs == 2 ==> r is Ok,
        nargs != 2 ==> (r matches Err(e) && e.kind == EvalErrorKind::WrongArity
            && e.message@ == (if func == Function::Min { "min"@ } else { "max"@ })
                + " expects 2 arguments, got "@ + decimal_of(nargs as nat)),
        r matches Err(e) ==> expr_span(e.span),
{
    if nargs != 2 {
        let mut m = if func == Function::Min { owned("min") } else { owned("max") };
        push_str(&mut m, " expects 2 arguments, got ");
        let n = decimal(nargs);
        push_str(&mut m, n.as_str());
        return Err(eval_err(EvalErrorKind::WrongArity, m));
    }
    Ok(())
}

/// `min`/`max` on two evaluated arguments: strings and booleans are refused
/// (the first argument checked first); two integers give an integer; else
/// the choice is made between decimals.
pub open spec fn spec_min_max(func: Function, a: OperandView, b: OperandView) -> Result<Outcome, Failure> {
    if a is Str {
        Err((EvalErrorKind::TypeMismatch, "math ops cannot be applied to strings"@))
    } else if a is Bool {
        Err((EvalErrorKind::TypeMismatch, "math ops cannot be applied to booleans"@))
    } else if b is Str {
        Err((EvalErrorKind::TypeMismatch, "math ops cannot be applied to strings"@))
    } else if b is Bool {
        Err((EvalErrorKind::TypeMismatch, "math ops cannot be applied to booleans"@))
    } else {
        match (a, b) {
            (OperandView::Int(x), OperandView::Int(y)) => Ok(Outcome::Int(
                (if func == Function::Min { if x <= y { x } else { y } } else { if x >= y { x } else { y } }) as i128,
            )),
            _ => Ok(Outcome::Decimal),
        }
    }
}

pub fn eval_min_max(func: Function, a: &Operand, b: &Operand) -> (r: Result<Outcome, EvalError>)
    requires
        func != Function::Round,
    ensures
        match spec_min_max(func, a@, b@) {
            Ok(o) => r == Ok::<Outcome, EvalError>(o),
            Err(f) => r matches Err(e) && failure_of(e) == f && expr_span(e.span),
        },
{
    match a {
        Operand::Str(_) | Operand::Bool(_) => return Err(type_mismatch_for(a)),
        _ => {},
    }
    match b {
        Operand::Str(_) | Operand::Bool(_) => return Err(type_mismatch_for(b)),
        _ => {},
    }
    match (a, b) {
        (Operand::Int(x), Operand::Int(y)) => {
            let chosen = if func == Function::Min {
                if *x <= *y { *x } else { *y }
            } else {
                if *x >= *y { *x } else { *y }
            };
            Ok(Outcome::Int(chosen))
        },
        _ => Ok(Outcome::Decimal),
    }
}


/// `!=` always answers the opposite of `==`, except between two decimals,
/// whose comparison is a floating-point one.
pub proof fn law_ne_negates_eq(l: OperandView, r: OperandView)
    requires
        !(l is Float && r is Float),
    ensures
        spec_binop(BinaryOp::Eq, l, r) matches Ok(Outcome::Bool(x))
            && spec_binop(BinaryOp::Ne, l, r) == Ok::<Outcome, Failure>(Outcome::Bool(!x)),
{
}


pub open spec fn int_result(op: BinaryOp, a: i128, b: i128) -> Result<Outcome, Failure> {
    spec_binop(op, OperandView::Int(a as int), OperandView::Int(b as int))
}

/// Integer arithmetic is exact: a sum, a difference or a product that fits
/// in an `i128` is that number (the sum less `b` gives `a` back, the
/// difference plus `b` gives `a` back), and one that does not fit is an
/// overflow.
pub proof fn law_int_add_sub_mul(a: i128, b: i128)
    ensures
        in_i128(a + b) ==> (int_result(BinaryOp::Add, a, b) matches Ok(Outcome::Int(x)) && x - b == a),
        in_i128(a - b) ==> (int_result(BinaryOp::Sub, a, b) matches Ok(Outcome::Int(x)) && x + b == a),
        in_i128(a * b) ==> (int_result(BinaryOp::Mul, a, b) matches Ok(Outcome::Int(x)) && x == a * b),
        !in_i128(a + b) ==> int_result(BinaryOp::Add, a, b) == Err::<Outcome, Failure>(overflow_failure()),
        !in_i128(a - b) ==> int_result(BinaryOp::Sub, a, b) == Err::<Outcome, Failure>(overflow_failure()),
        !in_i128(a * b) ==> int_result(BinaryOp::Mul, a, b) == Err::<Outcome, Failure>(overflow_failure()),
        int_result(BinaryOp::Add, a, b) == int_result(BinaryOp::Add, b, a),
        int_result(BinaryOp::Mul, a, b) == int_result(BinaryOp::Mul, b, a),
{
    assert(a * b == b * a) by (nonlinear_arith);
}

proof fn lemma_nat_div(x: int, d: int)
    requires
        x >= 0,
        d > 0,
    ensures
        x == d * (x / d) + x % d,
        0 <= x % d < d,
        0 <= x / d <= x,
{
    vstd::arithmetic::div_mod::lemma_fundamental_div_mod(x, d);
    vstd::arithmetic::div_mod::lemma_mod_pos_bound(x, d);
    assert(0 <= x / d <= x) by (nonlinear_arith)
        requires
            x >= 0,
            d > 0,
            x == d * (x / d) + x % d,
            0 <= x % d < d,
    {
        assert(d * (x / d) <= x);
        if x / d < 0 {
            assert(d * (x / d) < 0);
        }
        if x / d > x {
            assert(d * (x / d) >= x / d);
        }
    }
}

/// Integer division rounds toward zero and the remainder keeps the sign
/// of `a`: for `b` not zero, `a / b` and `a % b` are the `q` and `r` with
/// `q * b + r == a`, `|r| < |b|`, and `r` of the sign of `a`. Both refuse
/// a zero `b`; only `i128::MIN / -1` leaves the range.
pub proof fn law_int_div_rem(a: i128, b: i128)
    ensures
        b == 0 ==> int_result(BinaryOp::Div, a, b) == Err::<Outcome, Failure>(div_zero_failure())
            && int_result(BinaryOp::Mod, a, b) == Err::<Outcome, Failure>(div_zero_failure()),
        b != 0 && !(a == i128::MIN && b == -1) ==> {
            &&& int_result(BinaryOp::Div, a, b) matches Ok(Outcome::Int(q))
            &&& int_result(BinaryOp::Mod, a, b) matches Ok(Outcome::Int(r))
            &&& q * b + r == a
            &&& (a >= 0 ==> 0 <= r < (if b > 0 { b as int } else { -b }))
            &&& (a < 0 ==> 0 < -r + (if b > 0 { b as int } else { -b }) && r <= 0)
        },
{
    if b != 0 && !(a == i128::MIN && b == -1) {
        let (ai, bi) = (a as int, b as int);
        let q = trunc_div(ai, bi);
        let r = trunc_rem(ai, bi);
        if ai == 0 {
        } else if ai > 0 && bi > 0 {
            lemma_nat_div(ai, bi);
        } else if ai < 0 && bi < 0 {
            lemma_nat_div(-ai, -bi);
            assert(q * bi + r == ai) by (nonlinear_arith)
                requires q == (-ai) / (-bi), r == -((-ai) % (-bi)), -ai == (-bi) * ((-ai) / (-bi)) + (-ai) % (-bi);
        } else if ai < 0 {
            lemma_nat_div(-ai, bi);
            assert(q * bi + r == ai) by (nonlinear_arith)
                requires q == -((-ai) / bi), r == -((-ai) % bi), -ai == bi * ((-ai) / bi) + (-ai) % bi;
        } else {
            lemma_nat_div(ai, -bi);
            assert(q * bi + r == ai) by (nonlinear_arith)
                requires q == -(ai / (-bi)), r == ai % (-bi), ai == (-bi) * (ai / (-bi)) + ai % (-bi);
        }
        assert(q * bi + r == ai);
        assert(in_i128(q));
        assert(in_i128(r));
    }
}

/// Comparisons of integers are the comparisons of their values.
pub proof fn law_int_compare(a: i128, b: i128)
    ensures
        int_result(BinaryOp::Lt, a, b) == Ok::<Outcome, Failure>(Outcome::Bool(a < b)),
        int_result(BinaryOp::Gt, a, b) == Ok::<Outcome, Failure>(Outcome::Bool(b < a)),
        int_result(BinaryOp::Le, a, b) == Ok::<Outcome, Failure>(Outcome::Bool(!(b < a))),
        int_result(BinaryOp::Ge, a, b) == Ok::<Outcome, Failure>(Outcome::Bool(!(a < b))),
        int_result(BinaryOp::Eq, a, b) == Ok::<Outcome, Failure>(Outcome::Bool(a == b)),
        int_result(BinaryOp::Ne, a, b) == Ok::<Outcome, Failure>(Outcome::Bool(a != b)),
{
}

/// A power of an integer: `a ^ 0` is 1, and raising to one more multiplies
/// by `a`, while the results fit; a negative exponent gives a decimal.
pub proof fn law_int_pow(a: i128, e: i128)
    ensures
        int_result(BinaryOp::Pow, a, 0) == Ok::<Outcome, Failure>(Outcome::Int(1)),
        0 <= e < u32::MAX ==> (int_result(BinaryOp::Pow, a, e) matches Ok(Outcome::Int(x))
            ==> (in_i128(x * a) ==> int_result(BinaryOp::Pow, a, (e + 1) as i128) == Ok::<Outcome, Failure>(Outcome::Int((x * a) as i128)))),
        e < 0 ==> int_result(BinaryOp::Pow, a, e) == Ok::<Outcome, Failure>(Outcome::NegativePower(a, e)),
{
    if 0 <= e < u32::MAX {
        let p = pow(a as int, e as nat);
        assert(pow(a as int, (e + 1) as nat) == a * p);
        assert(a * p == p * a) by (nonlinear_arith);
    }
}


/// Negating an integer gives the number that adds up to zero with it (and
/// an overflow only for `i128::MIN`); a decimal stays a decimal.
pub proof fn law_neg(i: i128)
    ensures
        i != i128::MIN ==> (spec_neg(OperandView::Int(i as int)) matches Ok(Outcome::Int(x)) && x + i == 0),
        i == i128::MIN ==> spec_neg(OperandView::Int(i as int)) == Err::<Outcome, Failure>(overflow_failure()),
        spec_neg(OperandView::Float) == Ok::<Outcome, Failure>(Outcome::Decimal),
{
}

/// `min` of two integers is one of them and no larger than either; `max`
/// is one of them and no smaller than either; together they are the two
/// numbers.
pub proof fn law_min_max(x: i128, y: i128)
    ensures
        spec_min_max(Function::Min, OperandView::Int(x as int), OperandView::Int(y as int)) matches Ok(Outcome::Int(m))
            && m <= x && m <= y && (m == x || m == y),
        spec_min_max(Function::Max, OperandView::Int(x as int), OperandView::Int(y as int)) matches Ok(Outcome::Int(m))
            && m >= x && m >= y && (m == x || m == y),
        spec_min_max(Function::Min, OperandView::Int(x as int), OperandView::Int(y as int)) matches Ok(Outcome::Int(m1))
            && spec_min_max(Function::Max, OperandView::Int(x as int), OperandView::Int(y as int)) matches Ok(Outcome::Int(m2))
            && m1 + m2 == x + y,
{
}

} // verus!

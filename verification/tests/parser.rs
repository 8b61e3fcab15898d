use iwwc::config::math::ast::{BinaryOp, Expr, Function, UnaryOp};
use iwwc::config::math::lexer::Lexer;
use iwwc::config::math::parser::{parse, ParseError, ParseErrorKind};

fn parse_str(input: &str) -> Result<Expr, ParseError> {
    let toks = Lexer::new(input).tokenize().expect("lex");
    parse(&toks)
}

fn lit(n: i128) -> Expr {
    Expr::Int(n)
}

fn binop(op: BinaryOp, a: Expr, b: Expr) -> Expr {
    Expr::Binary(op, Box::new(a), Box::new(b))
}

#[test]
fn literals_and_vars() {
    assert_eq!(parse_str("42").unwrap(), Expr::Int(42));
    assert_eq!(parse_str("3.12").unwrap(), Expr::Float("3.12".into()));
    assert_eq!(parse_str("x").unwrap(), Expr::Var("x".into()));
}

#[test]
fn precedence_add_mul() {
    assert_eq!(
        parse_str("1+2*3").unwrap(),
        binop(BinaryOp::Add, lit(1), binop(BinaryOp::Mul, lit(2), lit(3)))
    );
}

#[test]
fn precedence_parens() {
    assert_eq!(
        parse_str("(1+2)*3").unwrap(),
        binop(BinaryOp::Mul, binop(BinaryOp::Add, lit(1), lit(2)), lit(3))
    );
}

#[test]
fn pow_right_assoc() {
    assert_eq!(
        parse_str("2^3^2").unwrap(),
        binop(BinaryOp::Pow, lit(2), binop(BinaryOp::Pow, lit(3), lit(2)))
    );
}

#[test]
fn unary_minus_tighter_than_pow() {
    assert_eq!(
        parse_str("-2^2").unwrap(),
        binop(
            BinaryOp::Pow,
            Expr::Unary(UnaryOp::Neg, Box::new(lit(2))),
            lit(2)
        )
    );
}

#[test]
fn comparison_non_associative() {
    assert!(parse_str("1<2<3").is_err());
}

#[test]
fn parser_round_with_precision() {
    assert_eq!(
        parse_str("round(x).1").unwrap(),
        Expr::Call(Function::Round, vec![Expr::Var("x".into())], Some(1))
    );
}

#[test]
fn round_without_precision_parses_ok() {
    assert_eq!(
        parse_str("round(x)").unwrap(),
        Expr::Call(Function::Round, vec![Expr::Var("x".into())], None)
    );
}

#[test]
fn min_max_two_args() {
    assert_eq!(
        parse_str("min(1,2)").unwrap(),
        Expr::Call(Function::Min, vec![lit(1), lit(2)], None)
    );
    assert_eq!(
        parse_str("max(1,2)").unwrap(),
        Expr::Call(Function::Max, vec![lit(1), lit(2)], None)
    );
}

#[test]
fn min_with_precision_suffix_rejected() {
    assert!(parse_str("min(1,2).5").is_err());
}

#[test]
fn unknown_function_rejected_at_parse() {
    let err = parse_str("sqrt(4)").unwrap_err();
    assert_eq!(err.kind, ParseErrorKind::UnknownFunction);
}

#[test]
fn dangling_op_errors() {
    assert!(parse_str("1+").is_err());
    assert!(parse_str("*1").is_err());
}

#[test]
fn dotted_smart_var() {
    assert_eq!(
        parse_str("iwwc.ram.total").unwrap(),
        Expr::Var("iwwc.ram.total".into())
    );
    assert_eq!(parse_str("a.b").unwrap(), Expr::Var("a.b".into()));
}

#[test]
fn round_precision_still_works() {
    assert!(matches!(
        parse_str("round(x).1").unwrap(),
        Expr::Call(Function::Round, _, Some(1))
    ));
}

#[test]
fn error_messages_and_offsets() {
    let err = parse_str("1<2<3").unwrap_err();
    assert_eq!(err.kind, ParseErrorKind::Generic);
    assert_eq!(err.message, "chained comparisons (a < b < c) are not allowed");
    assert_eq!(err.offset, 3);

    let err = parse_str("1==2!=3").unwrap_err();
    assert_eq!(err.message, "chained equality comparisons are not allowed");
    assert_eq!(err.offset, 4);

    let err = parse_str("1+").unwrap_err();
    assert_eq!(err.message, "unexpected end of expression");
    assert_eq!(err.offset, 2);

    let err = parse_str("(1").unwrap_err();
    assert_eq!(err.message, "expected `)`");
    assert_eq!(err.offset, 2);

    let err = parse_str("1 2").unwrap_err();
    assert_eq!(err.message, "unexpected token after expression");
    assert_eq!(err.offset, 2);

    let err = parse_str("sqrt(4)").unwrap_err();
    assert_eq!(err.message, "unknown function \"sqrt\"");
    assert_eq!(err.offset, 4);

    let err = parse_str("min(1 2)").unwrap_err();
    assert_eq!(err.message, "expected `,` or `)`");
    assert_eq!(err.offset, 6);

    let err = parse_str("min(1,2).5").unwrap_err();
    assert_eq!(err.message, "precision suffix `.N` is only valid on round(...)");
    assert_eq!(err.offset, 10);

    let err = parse_str("round(x).y").unwrap_err();
    assert_eq!(err.message, "expected integer after `.`");
    assert_eq!(err.offset, 10);
}

#[test]
fn empty_call_and_comparisons() {
    assert_eq!(parse_str("max()").unwrap(), Expr::Call(Function::Max, vec![], None));
    assert_eq!(
        parse_str("1<2==3>=4").unwrap(),
        binop(
            BinaryOp::Eq,
            binop(BinaryOp::Lt, lit(1), lit(2)),
            binop(BinaryOp::Ge, lit(3), lit(4))
        )
    );
    assert_eq!(
        parse_str("7-2-1").unwrap(),
        binop(BinaryOp::Sub, binop(BinaryOp::Sub, lit(7), lit(2)), lit(1))
    );
}

#[test]
fn empty_token_list_is_an_error() {
    let err = parse(&[]).unwrap_err();
    assert_eq!(err.offset, 0);
    assert_eq!(err.message, "unexpected end of expression");
}

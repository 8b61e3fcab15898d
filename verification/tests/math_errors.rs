use iwwc::config::math::error::EvalErrorKind;
use iwwc::config::math::evaluator::Operand;
use iwwc::config::math::interpolation::segments;
use iwwc::config::math::lexer::Lexer;
use iwwc::config::math::parser::parse;
use iwwc::config::math::{format_plain, interp_failure, lex_failure, parse_failure};
use iwwc::config::types::SourceText;
use iwwc::number::decimal_i128;

fn src(t: &str) -> SourceText {
    SourceText { label: "c.kdl".into(), text: t.into() }
}

#[test]
fn interpolation_errors_map_to_eval_errors() {
    let e = segments("ab ${x").unwrap_err();
    let r = interp_failure(&e, &src("ab ${x"), 10);
    assert_eq!(r.kind, EvalErrorKind::UnterminatedInterpolation);
    assert_eq!(r.message, "unterminated ${...} expression");
    assert_eq!(r.span.offset, 10 + e.offset);
    let e = segments("${${x}}").unwrap_err();
    let r = interp_failure(&e, &src(""), 0);
    assert_eq!(r.kind, EvalErrorKind::NestedInterpolation);
    assert_eq!(r.message, "nested ${...} interpolation is not allowed");
}

#[test]
fn lex_errors_name_the_character() {
    let e = Lexer::new("a @ b").tokenize().unwrap_err();
    let r = lex_failure(&e, &src(""), 5);
    assert_eq!(r.kind, EvalErrorKind::LexError);
    assert_eq!(r.message, "unexpected character '@' in expression");
    assert_eq!(r.span.offset, 7);
}

#[test]
fn parse_errors_keep_their_message() {
    let toks = Lexer::new("sqrt(4)").tokenize().unwrap();
    let e = parse(&toks).unwrap_err();
    let r = parse_failure(e, &src(""), 2);
    assert_eq!(r.kind, EvalErrorKind::UnknownFunction);
    assert_eq!(r.message, "unknown function \"sqrt\"");
    assert_eq!(r.span.offset, 6);
    let toks = Lexer::new("1+").tokenize().unwrap();
    let r = parse_failure(parse(&toks).unwrap_err(), &src(""), 0);
    assert_eq!(r.kind, EvalErrorKind::ParseError);
}

#[test]
fn plain_values_format() {
    assert_eq!(format_plain(&Operand::Int(42)), Some("42".to_string()));
    assert_eq!(format_plain(&Operand::Int(-7)), Some("-7".to_string()));
    assert_eq!(format_plain(&Operand::Bool(true)), Some("#true".to_string()));
    assert_eq!(format_plain(&Operand::Str("hi".into())), Some("hi".to_string()));
    assert_eq!(format_plain(&Operand::Float), None);
    assert_eq!(decimal_i128(i128::MIN), i128::MIN.to_string());
    assert_eq!(decimal_i128(i128::MAX), i128::MAX.to_string());
}

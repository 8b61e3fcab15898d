pub mod ast;
pub mod error;
pub mod evaluator;
pub mod interpolation;
pub mod lexer;
pub mod parser;

use vstd::prelude::*;
use crate::config::math::interpolation::Segment;
use crate::config::math::error::{EvalError, EvalErrorKind};
use crate::config::math::evaluator::{Operand, OperandView};
use crate::config::math::interpolation::{InterpError, InterpErrorKind};
use crate::config::math::lexer::LexError;
use crate::config::math::parser::{ParseError, ParseErrorKind};
use crate::config::types::{SourceText, Span};
use crate::number::{decimal_i128, signed_decimal_of};
use crate::text::{owned, push_str};

verus! {

/// Appends one character (`String::push`).
#[verifier::external_body]
fn push_char(s: &mut String, c: char)
    ensures
        final(s)@ == old(s)@.push(c),
{
    s.push(c);
}

/// An empty span at `offset` of `source`.
pub open spec fn is_span_at(s: Span, source: SourceText, offset: int) -> bool {
    &&& s.source.label@ == source.label@
    &&& s.source.text@ == source.text@
    &&& s.offset == offset
    &&& s.len == 0
}

pub fn span_at(source: &SourceText, offset: usize) -> (s: Span)
    ensures
        is_span_at(s, *source, offset as int),
{
    Span {
        source: SourceText { label: source.label.clone(), text: source.text.clone() },
        offset,
        len: 0,
    }
}

/// An interpolation error as an evaluation error, placed at its offset in
/// the source (the string starts at `base_offset`).
pub fn interp_failure(e: &InterpError, source: &SourceText, base_offset: usize) -> (r: EvalError)
    requires
        base_offset + e.offset <= usize::MAX,
    ensures
        is_span_at(r.span, *source, base_offset + e.offset),
        e.kind == InterpErrorKind::Unterminated ==> r.kind == EvalErrorKind::UnterminatedInterpolation
            && r.message@ == "unterminated ${...} expression"@,
        e.kind == InterpErrorKind::Nested ==> r.kind == EvalErrorKind::NestedInterpolation
            && r.message@ == "nested ${...} interpolation is not allowed"@,
{
    let span = span_at(source, base_offset + e.offset);
    match e.kind {
        InterpErrorKind::Unterminated => EvalError {
            kind: EvalErrorKind::UnterminatedInterpolation,
            span,
            message: owned("unterminated ${...} expression"),
        },
        InterpErrorKind::Nested => EvalError {
            kind: EvalErrorKind::NestedInterpolation,
            span,
            message: owned("nested ${...} interpolation is not allowed"),
        },
    }
}

/// A lexing error as an evaluation error; the expression starts at
/// `abs_offset` of the source.
pub fn lex_failure(e: &LexError, source: &SourceText, abs_offset: usize) -> (r: EvalError)
    requires
        abs_offset + e.offset <= usize::MAX,
    ensures
        is_span_at(r.span, *source, abs_offset + e.offset),
        r.kind == EvalErrorKind::LexError,
        r.message@ == "unexpected character '"@ + seq![e.ch] + "' in expression"@,
{
    let mut m = owned("unexpected character '");
    push_char(&mut m, e.ch);
    push_str(&mut m, "' in expression");
    EvalError { kind: EvalErrorKind::LexError, span: span_at(source, abs_offset + e.offset), message: m }
}

/// A parse error as an evaluation error, with the parser's message.
pub fn parse_failure(e: ParseError, source: &SourceText, abs_offset: usize) -> (r: EvalError)
    requires
        abs_offset + e.offset <= usize::MAX,
    ensures
        is_span_at(r.span, *source, abs_offset + e.offset),
        r.kind == (if e.kind == ParseErrorKind::UnknownFunction { EvalErrorKind::UnknownFunction } else {
            EvalErrorKind::ParseError
        }),
        r.message@ == e.message@,
{
    let kind = match e.kind {
        ParseErrorKind::UnknownFunction => EvalErrorKind::UnknownFunction,
        ParseErrorKind::Generic => EvalErrorKind::ParseError,
    };
    EvalError { kind, span: span_at(source, abs_offset + e.offset), message: e.message }
}

/// An error of evaluation, placed at the start of its expression.
pub fn at_expression(e: EvalError, source: &SourceText, abs_offset: usize) -> (r: EvalError)
    ensures
        is_span_at(r.span, *source, abs_offset as int),
        r.kind == e.kind,
        r.message@ == e.message@,
{
    EvalError { kind: e.kind, span: span_at(source, abs_offset), message: e.message }
}

/// How an integer, a boolean or a string is written into an interpolated
/// string; a decimal is written in floating point and has no text here.
pub open spec fn spec_format_plain(v: OperandView) -> Option<Seq<char>> {
    match v {
        OperandView::Int(i) => Some(signed_decimal_of(i)),
        OperandView::Bool(b) => Some(if b { "#true"@ } else { "#false"@ }),
        OperandView::Str(s) => Some(s),
        OperandView::Float => None,
    }
}

pub fn format_plain(v: &Operand) -> (r: Option<String>)
    ensures
        match spec_format_plain(v@) {
            Some(t) => r matches Some(x) && x@ == t,
            None => r is None,
        },
{
    match v {
        Operand::Int(i) => Some(decimal_i128(*i)),
        Operand::Bool(b) => Some(if *b { owned("#true") } else { owned("#false") }),
        Operand::Str(s) => Some(s.clone()),
        Operand::Float => None,
    }
}

/// The expression of a string that is one `${...}` block and nothing else:
/// such a string takes the value of its expression, with its type; any
/// other string is text, with each block replaced by its value's text.
pub fn single_expression<'a>(segs: &[Segment<'a>]) -> (r: Option<(&'a str, usize)>)
    ensures
        match r {
            Some((text, offset)) => segs@.len() == 1 && segs@[0] == (Segment::Expr { text, offset }),
            None => !(segs@.len() == 1 && segs@[0] is Expr),
        },
{
    if segs.len() == 1 {
        match segs[0] {
            Segment::Expr { text, offset } => Some((text, offset)),
            Segment::Literal(_) => None,
        }
    } else {
        None
    }
}

} // verus!

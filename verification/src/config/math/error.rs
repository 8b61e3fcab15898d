//! Errors of expression evaluation.

use vstd::prelude::*;
use crate::config::types::{SourceText, Span};
use crate::config::{location, located, span_ok};
use crate::text::{owned, push_str};

verus! {

#[derive(Debug, Clone, Copy, PartialEq, Eq, Structural)]
pub enum EvalErrorKind {
    UnterminatedInterpolation,
    NestedInterpolation,
    LexError,
    ParseError,
    UnknownVariable,
    TypeMismatch,
    DivByZero,
    Overflow,
    MissingPrecision,
    WrongArity,
    UnknownFunction,
}

/// An evaluation error, with where it happened.
#[derive(Debug, Clone)]
pub struct EvalError {
    pub kind: EvalErrorKind,
    pub span: Span,
    pub message: String,
}

/// The place given to errors that arise inside an expression: an empty
/// source labelled `<expr>`.
pub open spec fn expr_span(s: Span) -> bool {
    s.source.label@ == "<expr>"@ && s.source.text@ == Seq::<char>::empty() && s.offset == 0 && s.len == 0
}

/// An error of the given kind, placed inside the expression.
pub fn eval_err(kind: EvalErrorKind, message: String) -> (e: EvalError)
    ensures
        e.kind == kind,
        e.message@ == message@,
        expr_span(e.span),
{
    EvalError {
        kind,
        span: Span {
            source: SourceText { label: owned("<expr>"), text: String::new() },
            offset: 0,
            len: 0,
        },
        message,
    }
}

impl EvalError {
    /// The one-line report `label:line:col: error: message`.
    pub fn render(&self) -> (r: String)
        requires
            span_ok(self.span),
        ensures
            r@ == located(self.span) + ": error: "@ + self.message@,
    {
        let mut out = location(&self.span);
        push_str(&mut out, ": error: ");
        push_str(&mut out, self.message.as_str());
        out
    }
}

} // verus!

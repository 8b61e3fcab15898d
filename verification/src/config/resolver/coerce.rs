//! Turning the value of an expression into the type a field expects.

use vstd::prelude::*;
use vstd::string::StringSliceAdditionalSpecFns;
use crate::config::math::evaluator::{Operand, OperandView};
use crate::config::primitives::{
    parse_align_x, parse_align_y, parse_anchor, parse_col_align, parse_color, parse_layer, parse_output,
    output_named, parse_row_align, spec_align_x, spec_align_y, spec_col_align, spec_hex_color, spec_parse_anchor,
    spec_parse_layer, spec_row_align, hex_body, hex_value, law_color_accepts,
};
use crate::config::types::{transparent_color, AlignX, AlignY, Anchor, ColAlign, Color, Layer, Output, RowAlign, Span};
use crate::config::{ConfigError, ConfigErrorKind, Severity};
use crate::text::{owned, push_str, utf8};

verus! {

pub open spec fn type_message(field: Seq<char>, expected: Seq<char>) -> Seq<char> {
    "cannot use this value where "@ + expected + " is expected for field \""@ + field + "\""@
}

/// The error for a value of the wrong type in `field`.
pub open spec fn is_type_err(e: ConfigError, field: Seq<char>, expected: Seq<char>, span: Span) -> bool {
    &&& e.kind == ConfigErrorKind::TypeCoercion
    &&& e.severity == Severity::Error
    &&& e.message@ == type_message(field, expected)
    &&& e.span.source.label@ == span.source.label@
    &&& e.span.source.text@ == span.source.text@
    &&& e.span.offset == span.offset
    &&& e.span.len == span.len
}

pub fn type_err(field: &str, expected: &str, span: &Span) -> (e: ConfigError)
    ensures
        is_type_err(e, field@, expected@, *span),
{
    let mut m = owned("cannot use this value where ");
    push_str(&mut m, expected);
    push_str(&mut m, " is expected for field \"");
    push_str(&mut m, field);
    push_str(&mut m, "\"");
    ConfigError {
        kind: ConfigErrorKind::TypeCoercion,
        span: Span {
            source: crate::config::types::SourceText {
                label: span.source.label.clone(),
                text: span.source.text.clone(),
            },
            offset: span.offset,
            len: span.len,
        },
        message: m,
        severity: Severity::Error,
    }
}

/// A boolean field takes only a boolean.
pub fn coerce_bool(v: Operand, field: &str, span: &Span) -> (r: Result<bool, ConfigError>)
    ensures
        match v@ {
            OperandView::Bool(b) => r == Ok::<bool, ConfigError>(b),
            _ => r matches Err(e) && is_type_err(e, field@, "a boolean"@, *span),
        },
{
    match v {
        Operand::Bool(b) => Ok(b),
        _ => Err(type_err(field, "a boolean", span)),
    }
}

/// The color a string names (`transparent` or hex digits).
pub open spec fn spec_color(s: Seq<char>) -> Option<Color> {
    if s == "transparent"@ { Some(transparent_color()) } else { spec_hex_color(utf8(s)) }
}

/// A string names a color exactly when it is `transparent`, or when its
/// bytes, after one optional `#`, are six or eight hex digits.
pub proof fn law_color_names(s: Seq<char>)
    ensures
        (spec_color(s) is Some) == (s == "transparent"@ || ((hex_body(utf8(s)).len() == 6 || hex_body(utf8(s)).len() == 8)
            && forall|i: int| 0 <= i < hex_body(utf8(s)).len() ==> hex_value(#[trigger] hex_body(utf8(s))[i]) >= 0)),
{
    law_color_accepts(utf8(s));
}

pub fn coerce_color(v: Operand, field: &str, span: &Span) -> (r: Result<Color, ConfigError>)
    ensures
        match v@ {
            OperandView::Str(s) => match spec_color(s) {
                Some(c) => r == Ok::<Color, ConfigError>(c),
                None => r matches Err(e) && is_type_err(e, field@, "a color"@, *span),
            },
            _ => r matches Err(e) && is_type_err(e, field@, "a color string"@, *span),
        },
{
    match v {
        Operand::Str(s) => match parse_color(s.as_str()) {
            Some(c) => Ok(c),
            None => Err(type_err(field, "a color", span)),
        },
        _ => Err(type_err(field, "a color string", span)),
    }
}

pub fn coerce_anchor(v: Operand, field: &str, span: &Span) -> (r: Result<Anchor, ConfigError>)
    ensures
        match v@ {
            OperandView::Str(s) => match spec_parse_anchor(s) {
                Ok(a) => r == Ok::<Anchor, ConfigError>(a),
                Err(_) => r matches Err(e) && is_type_err(e, field@, "a valid anchor"@, *span),
            },
            _ => r matches Err(e) && is_type_err(e, field@, "an anchor string"@, *span),
        },
{
    match v {
        Operand::Str(s) => match parse_anchor(s.as_str()) {
            Ok(a) => Ok(a),
            Err(_) => Err(type_err(field, "a valid anchor", span)),
        },
        _ => Err(type_err(field, "an anchor string", span)),
    }
}

pub fn coerce_layer(v: Operand, field: &str, span: &Span) -> (r: Result<Layer, ConfigError>)
    ensures
        match v@ {
            OperandView::Str(s) => match spec_parse_layer(s) {
                Some(l) => r == Ok::<Layer, ConfigError>(l),
                None => r matches Err(e) && is_type_err(e, field@, "a valid layer"@, *span),
            },
            _ => r matches Err(e) && is_type_err(e, field@, "a layer string"@, *span),
        },
{
    match v {
        Operand::Str(s) => match parse_layer(s.as_str()) {
            Some(l) => Ok(l),
            None => Err(type_err(field, "a valid layer", span)),
        },
        _ => Err(type_err(field, "a layer string", span)),
    }
}

pub fn coerce_align_x(v: Operand, field: &str, span: &Span) -> (r: Result<AlignX, ConfigError>)
    ensures
        match v@ {
            OperandView::Str(s) => match spec_align_x(s) {
                Some(a) => r == Ok::<AlignX, ConfigError>(a),
                None => r matches Err(e) && is_type_err(e, field@, "a valid align_x"@, *span),
            },
            _ => r matches Err(e) && is_type_err(e, field@, "an align_x string"@, *span),
        },
{
    match v {
        Operand::Str(s) => match parse_align_x(s.as_str()) {
            Some(a) => Ok(a),
            None => Err(type_err(field, "a valid align_x", span)),
        },
        _ => Err(type_err(field, "an align_x string", span)),
    }
}

pub fn coerce_align_y(v: Operand, field: &str, span: &Span) -> (r: Result<AlignY, ConfigError>)
    ensures
        match v@ {
            OperandView::Str(s) => match spec_align_y(s) {
                Some(a) => r == Ok::<AlignY, ConfigError>(a),
                None => r matches Err(e) && is_type_err(e, field@, "a valid align_y"@, *span),
            },
            _ => r matches Err(e) && is_type_err(e, field@, "an align_y string"@, *span),
        },
{
    match v {
        Operand::Str(s) => match parse_align_y(s.as_str()) {
            Some(a) => Ok(a),
            None => Err(type_err(field, "a valid align_y", span)),
        },
        _ => Err(type_err(field, "an align_y string", span)),
    }
}

pub fn coerce_output(v: Operand, field: &str, span: &Span) -> (r: Result<Output, ConfigError>)
    ensures
        match v@ {
            OperandView::Str(s) => r matches Ok(o) && output_named(o, s),
            _ => r matches Err(e) && is_type_err(e, field@, "an output string"@, *span),
        },
{
    match v {
        Operand::Str(s) => Ok(parse_output(s.as_str())),
        _ => Err(type_err(field, "an output string", span)),
    }
}

pub fn coerce_row_align(v: Operand, field: &str, span: &Span) -> (r: Result<RowAlign, ConfigError>)
    ensures
        match v@ {
            OperandView::Str(s) => match spec_row_align(s) {
                Some(a) => r == Ok::<RowAlign, ConfigError>(a),
                None => r matches Err(e) && is_type_err(e, field@, "a valid row align"@, *span),
            },
            _ => r matches Err(e) && is_type_err(e, field@, "a row align string"@, *span),
        },
{
    match v {
        Operand::Str(s) => match parse_row_align(s.as_str()) {
            Some(a) => Ok(a),
            None => Err(type_err(field, "a valid row align", span)),
        },
        _ => Err(type_err(field, "a row align string", span)),
    }
}

pub fn coerce_col_align(v: Operand, field: &str, span: &Span) -> (r: Result<ColAlign, ConfigError>)
    ensures
        match v@ {
            OperandView::Str(s) => match spec_col_align(s) {
                Some(a) => r == Ok::<ColAlign, ConfigError>(a),
                None => r matches Err(e) && is_type_err(e, field@, "a valid column align"@, *span),
            },
            _ => r matches Err(e) && is_type_err(e, field@, "a column align string"@, *span),
        },
{
    match v {
        Operand::Str(s) => match parse_col_align(s.as_str()) {
            Some(a) => Ok(a),
            None => Err(type_err(field, "a valid column align", span)),
        },
        _ => Err(type_err(field, "a column align string", span)),
    }
}

} // verus!
